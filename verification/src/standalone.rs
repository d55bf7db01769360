use vstd::prelude::*;

use crate::midi::{MidiChannel, MidiMessage, MidiNote};
use crate::ring::EventRing;
use crate::sequencer::{default_grid_sound, DrumSound, Pattern, Step, Track};

verus! {

/// Slots of the queue that carries scheduled messages to the ALSA compatibility output.
pub const ALSA_EVENT_QUEUE_CAPACITY: usize = 512;

/// Whether `t` is the first track of `tracks` that plays `sound`.
pub open spec fn first_track_of(tracks: Seq<Track>, t: int, sound: DrumSound) -> bool {
    &&& 0 <= t < tracks.len()
    &&& tracks[t].sound == sound
    &&& forall|u: int| 0 <= u < t ==> (#[trigger] tracks[u]).sound != sound
}

/// Whether `steps` lists step index `k`.
pub open spec fn lists(steps: Seq<usize>, k: int) -> bool {
    exists|j: int| 0 <= j < steps.len() && steps[j] == k
}

/// `after` is `before` with the steps at the listed indices turned on (indices past the end are
/// ignored) and nothing else changed.
pub open spec fn steps_enabled(before: Track, after: Track, steps: Seq<usize>) -> bool {
    &&& after.sound == before.sound
    &&& after.channel == before.channel
    &&& after.steps@.len() == before.steps@.len()
    &&& forall|k: int|
        0 <= k < before.steps@.len() ==> #[trigger] after.steps@[k] == (Step {
            enabled: before.steps@[k].enabled || lists(steps, k),
            ..before.steps@[k]
        })
}

/// Turns on the listed steps of the first track that plays `sound`; without such a track the
/// pattern stays as it is.
pub fn enable_steps(pattern: &mut Pattern, sound: DrumSound, steps: &[usize])
    ensures
        final(pattern).beats_per_bar == old(pattern).beats_per_bar,
        final(pattern).steps_per_beat == old(pattern).steps_per_beat,
        final(pattern).tracks@.len() == old(pattern).tracks@.len(),
        forall|t: int|
            0 <= t < old(pattern).tracks@.len() ==> if first_track_of(
                old(pattern).tracks@,
                t,
                sound,
            ) {
                steps_enabled(old(pattern).tracks@[t], final(pattern).tracks@[t], steps@)
            } else {
                final(pattern).tracks@[t] == old(pattern).tracks@[t]
            },
{
    let mut t: usize = 0;
    while t < pattern.tracks.len()
        invariant
            t <= pattern.tracks@.len(),
            *pattern == *old(pattern),
            forall|u: int| 0 <= u < t ==> (#[trigger] pattern.tracks@[u]).sound != sound,
        ensures
            t <= pattern.tracks@.len(),
            *pattern == *old(pattern),
            forall|u: int| 0 <= u < t ==> (#[trigger] pattern.tracks@[u]).sound != sound,
            t < pattern.tracks@.len() ==> pattern.tracks@[t as int].sound == sound,
        decreases pattern.tracks@.len() - t,
    {
        if pattern.tracks[t].sound == sound {
            break;
        }
        t = t + 1;
    }
    if t == pattern.tracks.len() {
        assert forall|u: int| 0 <= u < old(pattern).tracks@.len() implies !first_track_of(
            old(pattern).tracks@,
            u,
            sound,
        ) by {
            assert(old(pattern).tracks@[u].sound != sound);
        }
        return;
    }
    let ghost before = pattern.tracks@[t as int];
    assert(first_track_of(old(pattern).tracks@, t as int, sound));
    let mut i: usize = 0;
    while i < steps.len()
        invariant
            i <= steps@.len(),
            t < pattern.tracks@.len(),
            pattern.tracks@.len() == old(pattern).tracks@.len(),
            pattern.beats_per_bar == old(pattern).beats_per_bar,
            pattern.steps_per_beat == old(pattern).steps_per_beat,
            before == old(pattern).tracks@[t as int],
            forall|u: int|
                0 <= u < pattern.tracks@.len() && u != t ==> pattern.tracks@[u]
                    == old(pattern).tracks@[u],
            steps_enabled(before, pattern.tracks@[t as int], steps@.take(i as int)),
        decreases steps@.len() - i,
    {
        let step = steps[i];
        pattern.tracks[t].enable_step(step);
        proof {
            let after = pattern.tracks@[t as int];
            let listed = steps@.take(i as int);
            let listed_next = steps@.take(i + 1);
            assert(listed_next =~= listed.push(step));
            assert forall|k: int| 0 <= k < before.steps@.len() implies #[trigger] after.steps@[k] == (
            Step { enabled: before.steps@[k].enabled || lists(listed_next, k), ..before.steps@[k] }) by {
                if k == step {
                    assert(listed_next[i as int] == step);
                    assert(lists(listed_next, k));
                } else {
                    assert(listed_next[i as int] == step);
                    if lists(listed_next, k) {
                        let j = choose|j: int| 0 <= j < listed_next.len() && listed_next[j] == k;
                        assert(listed[j] == k);
                    }
                    if lists(listed, k) {
                        let j = choose|j: int| 0 <= j < listed.len() && listed[j] == k;
                        assert(listed_next[j] == k);
                    }
                }
            }
        }
        i = i + 1;
    }
    assert(steps@.take(steps@.len() as int) =~= steps@);
    assert forall|u: int|
        0 <= u < old(pattern).tracks@.len() && first_track_of(old(pattern).tracks@, u, sound)
        implies u == t by {
        if u < t {
            assert(old(pattern).tracks@[u].sound != sound);
        } else if u > t {
            assert(old(pattern).tracks@[t as int].sound == sound);
        }
    }
}

/// The steps that the seeded rhythm plays, for each sound: Kick on 1/5/9/13, Snare and Clap on
/// 5/13, Hi-hat on every odd-numbered step, Cymbal on step 1 (counting from one).
pub open spec fn seeded_rhythm(sound: DrumSound, step: int) -> bool {
    match sound {
        DrumSound::Tom => false,
        DrumSound::Kick => step == 0 || step == 4 || step == 8 || step == 12,
        DrumSound::Snare => step == 4 || step == 12,
        DrumSound::HiHat => step == 0 || step == 2 || step == 4 || step == 6 || step == 8 || step
            == 10 || step == 12 || step == 14,
        DrumSound::Cymbal => step == 0,
        DrumSound::Clap => step == 4 || step == 12,
    }
}

/// The steps listed for `sound` by the seeded rhythm, as written in `default_pattern`.
spec fn listed_steps(sound: DrumSound) -> Seq<usize> {
    match sound {
        DrumSound::Tom => Seq::empty(),
        DrumSound::Kick => seq![0usize, 4, 8, 12],
        DrumSound::Snare => seq![4usize, 12],
        DrumSound::HiHat => seq![0usize, 2, 4, 6, 8, 10, 12, 14],
        DrumSound::Cymbal => seq![0usize],
        DrumSound::Clap => seq![4usize, 12],
    }
}

proof fn lemma_listed_steps(sound: DrumSound, listed: Seq<usize>)
    requires
        listed == listed_steps(sound),
    ensures
        forall|k: int| 0 <= k < 16 ==> (#[trigger] lists(listed, k)) == seeded_rhythm(sound, k),
{
    assert forall|k: int| 0 <= k < 16 implies (#[trigger] lists(listed, k)) == seeded_rhythm(sound, k) by {
        if seeded_rhythm(sound, k) {
            let j: int = match sound {
                DrumSound::Kick => k / 4,
                DrumSound::HiHat => k / 2,
                DrumSound::Snare => if k == 4 { 0 } else { 1 },
                DrumSound::Clap => if k == 4 { 0 } else { 1 },
                _ => 0,
            };
            assert(listed[j] == k);
        }
    }
}

/// The default drum grid with the seeded rhythm turned on.
pub fn default_pattern() -> (r: Pattern)
    ensures
        r.beats_per_bar == 4,
        r.steps_per_beat == 4,
        r.tracks@.len() == 6,
        forall|t: int|
            #![trigger r.tracks@[t]]
            0 <= t < 6 ==> {
                &&& r.tracks@[t].sound == default_grid_sound(t)
                &&& r.tracks@[t].channel@ == 10
                &&& r.tracks@[t].steps@.len() == 16
                &&& forall|k: int|
                    #![trigger r.tracks@[t].steps@[k]]
                    0 <= k < 16 ==> {
                        &&& r.tracks@[t].steps@[k].enabled == seeded_rhythm(default_grid_sound(t), k)
                        &&& r.tracks@[t].steps@[k].note@ == default_grid_sound(t).general_midi_note()
                        &&& r.tracks@[t].steps@[k].velocity@ == 100
                        &&& r.tracks@[t].steps@[k].gate@ == 50
                    }
            },
{
    let mut pattern = Pattern::default_drum_grid();
    let ghost grid = pattern;
    let kick: [usize; 4] = [0, 4, 8, 12];
    let snare: [usize; 2] = [4, 12];
    let clap: [usize; 2] = [4, 12];
    let hihat: [usize; 8] = [0, 2, 4, 6, 8, 10, 12, 14];
    let cymbal: [usize; 1] = [0];
    enable_steps(&mut pattern, DrumSound::Kick, kick.as_slice());
    let ghost after_kick = pattern;
    enable_steps(&mut pattern, DrumSound::Snare, snare.as_slice());
    let ghost after_snare = pattern;
    enable_steps(&mut pattern, DrumSound::Clap, clap.as_slice());
    let ghost after_clap = pattern;
    enable_steps(&mut pattern, DrumSound::HiHat, hihat.as_slice());
    let ghost after_hihat = pattern;
    enable_steps(&mut pattern, DrumSound::Cymbal, cymbal.as_slice());
    proof {
        lemma_listed_steps(DrumSound::Kick, kick@);
        lemma_listed_steps(DrumSound::Snare, snare@);
        lemma_listed_steps(DrumSound::Clap, clap@);
        lemma_listed_steps(DrumSound::HiHat, hihat@);
        assert(cymbal@ =~= seq![0usize]);
        lemma_listed_steps(DrumSound::Cymbal, cymbal@);
        assert forall|t: int| #![trigger pattern.tracks@[t]] 0 <= t < 6 implies {
            &&& pattern.tracks@[t].sound == default_grid_sound(t)
            &&& pattern.tracks@[t].channel@ == 10
            &&& pattern.tracks@[t].steps@.len() == 16
            &&& forall|k: int|
                #![trigger pattern.tracks@[t].steps@[k]]
                0 <= k < 16 ==> {
                    &&& pattern.tracks@[t].steps@[k].enabled == seeded_rhythm(default_grid_sound(t), k)
                    &&& pattern.tracks@[t].steps@[k].note@ == default_grid_sound(t).general_midi_note()
                    &&& pattern.tracks@[t].steps@[k].velocity@ == 100
                    &&& pattern.tracks@[t].steps@[k].gate@ == 50
                }
        } by {
            assert(grid.tracks@[t].sound == default_grid_sound(t));
            assert(forall|k: int| 0 <= k < 16 ==> #[trigger] grid.tracks@[t].steps@[k].is_default_off(
                default_grid_sound(t).general_midi_note()));
            // Each stage changes only the first track of its sound.
            assert(first_track_of(grid.tracks@, 1, DrumSound::Kick));
            assert(first_track_of(after_kick.tracks@, 2, DrumSound::Snare));
            assert(first_track_of(after_snare.tracks@, 5, DrumSound::Clap));
            assert(first_track_of(after_clap.tracks@, 3, DrumSound::HiHat));
            assert(first_track_of(after_hihat.tracks@, 4, DrumSound::Cymbal));
            if t != 1 { assert(!first_track_of(grid.tracks@, t, DrumSound::Kick)); }
            if t != 2 { assert(!first_track_of(after_kick.tracks@, t, DrumSound::Snare)); }
            if t != 5 { assert(!first_track_of(after_snare.tracks@, t, DrumSound::Clap)); }
            if t != 3 { assert(!first_track_of(after_clap.tracks@, t, DrumSound::HiHat)); }
            if t != 4 { assert(!first_track_of(after_hihat.tracks@, t, DrumSound::Cymbal)); }
            assert forall|k: int| #![trigger pattern.tracks@[t].steps@[k]] 0 <= k < 16 implies {
                &&& pattern.tracks@[t].steps@[k].enabled == seeded_rhythm(default_grid_sound(t), k)
                &&& pattern.tracks@[t].steps@[k].note@ == default_grid_sound(t).general_midi_note()
                &&& pattern.tracks@[t].steps@[k].velocity@ == 100
                &&& pattern.tracks@[t].steps@[k].gate@ == 50
            } by {
                assert(grid.tracks@[t].steps@[k].is_default_off(default_grid_sound(t).general_midi_note()));
                if t == 1 {
                    assert(after_kick.tracks@[t].steps@[k] == (Step { enabled: grid.tracks@[t].steps@[k].enabled || lists(kick@, k), ..grid.tracks@[t].steps@[k] }));
                } else if t == 2 {
                    assert(after_snare.tracks@[t].steps@[k] == (Step { enabled: after_kick.tracks@[t].steps@[k].enabled || lists(snare@, k), ..after_kick.tracks@[t].steps@[k] }));
                } else if t == 5 {
                    assert(after_clap.tracks@[t].steps@[k] == (Step { enabled: after_snare.tracks@[t].steps@[k].enabled || lists(clap@, k), ..after_snare.tracks@[t].steps@[k] }));
                } else if t == 3 {
                    assert(after_hihat.tracks@[t].steps@[k] == (Step { enabled: after_clap.tracks@[t].steps@[k].enabled || lists(hihat@, k), ..after_clap.tracks@[t].steps@[k] }));
                } else if t == 4 {
                    assert(pattern.tracks@[t].steps@[k] == (Step { enabled: after_hihat.tracks@[t].steps@[k].enabled || lists(cymbal@, k), ..after_hihat.tracks@[t].steps@[k] }));
                }
            }
        }
    }
    pattern
}

/// The queue that carries scheduled messages from the realtime callback to the ALSA
/// compatibility output, oldest first. It holds at most `ALSA_EVENT_QUEUE_CAPACITY - 1` messages.
pub struct AlsaEventQueue {
    ring: EventRing<MidiMessage>,
}

impl View for AlsaEventQueue {
    type V = Seq<MidiMessage>;

    closed spec fn view(&self) -> Seq<MidiMessage> {
        self.ring.items()
    }
}

impl AlsaEventQueue {
    pub closed spec fn wf(self) -> bool {
        &&& self.ring.wf()
        &&& self.ring.slot_count() == ALSA_EVENT_QUEUE_CAPACITY
    }

    pub fn new() -> (r: Self)
        ensures
            r.wf(),
            r@ == Seq::<MidiMessage>::empty(),
    {
        AlsaEventQueue { ring: EventRing::new(ALSA_EVENT_QUEUE_CAPACITY) }
    }

    /// Queues `message` unless the queue is full; `false` means it was rejected.
    pub fn try_push(&mut self, message: MidiMessage) -> (pushed: bool)
        requires
            old(self).wf(),
        ensures
            final(self).wf(),
            pushed <==> old(self)@.len() < ALSA_EVENT_QUEUE_CAPACITY - 1,
            pushed ==> final(self)@ == old(self)@.push(message),
            !pushed ==> final(self)@ == old(self)@,
    {
        self.ring.try_push(message)
    }

    /// Takes the oldest queued message.
    pub fn try_pop(&mut self) -> (r: Option<MidiMessage>)
        requires
            old(self).wf(),
        ensures
            final(self).wf(),
            old(self)@.len() == 0 ==> r is None && final(self)@ == old(self)@,
            old(self)@.len() > 0 ==> r == Some(old(self)@[0]) && final(self)@ == old(self)@.drop_first(),
    {
        self.ring.try_pop()
    }
}

pub const MIDI_CHANNEL_COUNT: usize = 16;
pub const MIDI_NOTE_COUNT: usize = 128;
/// One flag per channel and note.
pub const NOTE_FLAG_COUNT: usize = 2048;

/// The flag of zero-based `channel_index` and `note`.
pub open spec fn flag_index(channel_index: int, note: int) -> int {
    channel_index * 128 + note
}

/// The flag a message is about.
pub open spec fn message_flag(message: MidiMessage) -> int {
    flag_index(message.channel_of()@ - 1, message.note_of()@ as int)
}

/// Whether the note of `message` sounds once the message is delivered: a note-on with a nonzero
/// velocity starts it; a note-off, or a note-on of velocity zero, ends it.
pub open spec fn sounds_after(message: MidiMessage) -> bool {
    message matches MidiMessage::NoteOn { velocity, .. } && velocity@ != 0
}

/// Whether `message` is the note-off of the note at `flag`.
pub open spec fn is_note_off_for(message: MidiMessage, flag: int) -> bool {
    &&& message is NoteOff
    &&& message.channel_of()@ == flag / 128 + 1
    &&& message.note_of()@ == flag % 128
}

/// The sounding flags below `count`, in ascending order.
pub open spec fn sounding_flags(flags: Seq<bool>, count: nat) -> Seq<int>
    decreases count,
{
    if count == 0 {
        Seq::empty()
    } else {
        sounding_flags(flags, (count - 1) as nat) + if flags[count - 1] {
            seq![count - 1]
        } else {
            Seq::empty()
        }
    }
}

/// The flags after delivering `messages` in order.
pub open spec fn after_messages(flags: Seq<bool>, messages: Seq<MidiMessage>) -> Seq<bool>
    decreases messages.len(),
{
    if messages.len() == 0 {
        flags
    } else {
        let last = messages.last();
        after_messages(flags, messages.drop_last()).update(message_flag(last), sounds_after(last))
    }
}

/// The notes a MIDI output has left sounding, per channel, so that they can be silenced when
/// delivery of a note-off may have been lost.
pub struct ActiveNotes {
    sounding: Vec<bool>,
}

impl View for ActiveNotes {
    type V = Seq<bool>;

    closed spec fn view(&self) -> Seq<bool> {
        self.sounding@
    }
}

impl ActiveNotes {
    pub open spec fn wf(self) -> bool {
        self@.len() == NOTE_FLAG_COUNT
    }

    /// No note sounding.
    pub fn new() -> (r: Self)
        ensures
            r.wf(),
            forall|i: int| 0 <= i < NOTE_FLAG_COUNT ==> !#[trigger] r@[i],
    {
        let mut sounding: Vec<bool> = Vec::new();
        while sounding.len() < NOTE_FLAG_COUNT
            invariant
                sounding@.len() <= NOTE_FLAG_COUNT,
                forall|i: int| 0 <= i < sounding@.len() ==> !#[trigger] sounding@[i],
            decreases NOTE_FLAG_COUNT - sounding@.len(),
        {
            sounding.push(false);
        }
        ActiveNotes { sounding }
    }

    /// Records that `message` was delivered.
    pub fn record(&mut self, message: MidiMessage)
        requires
            old(self).wf(),
        ensures
            final(self).wf(),
            0 <= message_flag(message) < NOTE_FLAG_COUNT,
            final(self)@ == old(self)@.update(message_flag(message), sounds_after(message)),
    {
        match message {
            MidiMessage::NoteOn { channel, note, velocity } => {
                let index = channel.status_nibble() as usize * MIDI_NOTE_COUNT + note.get() as usize;
                self.sounding.set(index, velocity.get() != 0);
            },
            MidiMessage::NoteOff { channel, note } => {
                let index = channel.status_nibble() as usize * MIDI_NOTE_COUNT + note.get() as usize;
                self.sounding.set(index, false);
            },
        }
    }

    /// Whether the note `note` of zero-based `channel_index` sounds.
    pub fn is_sounding(&self, channel_index: usize, note: usize) -> (r: bool)
        requires
            self.wf(),
            channel_index < MIDI_CHANNEL_COUNT,
            note < MIDI_NOTE_COUNT,
        ensures
            r == self@[flag_index(channel_index as int, note as int)],
    {
        self.sounding[channel_index * MIDI_NOTE_COUNT + note]
    }

    /// The note-offs that silence every sounding note, by channel then note.
    pub fn note_offs(&self) -> (r: Vec<MidiMessage>)
        requires
            self.wf(),
        ensures
            r@.len() == sounding_flags(self@, NOTE_FLAG_COUNT as nat).len(),
            forall|j: int|
                0 <= j < r@.len() ==> is_note_off_for(
                    #[trigger] r@[j],
                    sounding_flags(self@, NOTE_FLAG_COUNT as nat)[j],
                ),
    {
        let mut offs: Vec<MidiMessage> = Vec::new();
        let mut k: usize = 0;
        while k < NOTE_FLAG_COUNT
            invariant
                k <= NOTE_FLAG_COUNT,
                self.wf(),
                offs@.len() == sounding_flags(self@, k as nat).len(),
                forall|j: int|
                    0 <= j < offs@.len() ==> is_note_off_for(
                        #[trigger] offs@[j],
                        sounding_flags(self@, k as nat)[j],
                    ),
            decreases NOTE_FLAG_COUNT - k,
        {
            let channel_index = k / MIDI_NOTE_COUNT;
            let note_index = k % MIDI_NOTE_COUNT;
            if self.sounding[k] {
                let channel = MidiChannel::new((channel_index + 1) as u8).unwrap();
                let note = MidiNote::new(note_index as u8).unwrap();
                offs.push(MidiMessage::NoteOff { channel, note });
            }
            proof {
                let before = sounding_flags(self@, k as nat);
                assert(sounding_flags(self@, (k + 1) as nat) == before + if self@[k as int] {
                    seq![k as int]
                } else {
                    Seq::<int>::empty()
                });
            }
            k = k + 1;
        }
        offs
    }
}

proof fn lemma_sounding_flags(flags: Seq<bool>, count: nat)
    requires
        count <= flags.len(),
    ensures
        forall|j: int|
            0 <= j < sounding_flags(flags, count).len() ==> 0 <= #[trigger] sounding_flags(
                flags,
                count,
            )[j] < count && flags[sounding_flags(flags, count)[j]],
        forall|i: int|
            0 <= i < count && flags[i] ==> exists|j: int|
                0 <= j < sounding_flags(flags, count).len() && #[trigger] sounding_flags(
                    flags,
                    count,
                )[j] == i,
    decreases count,
{
    if count > 0 {
        let c = (count - 1) as nat;
        lemma_sounding_flags(flags, c);
        let before = sounding_flags(flags, c);
        let now = sounding_flags(flags, count);
        assert forall|i: int| 0 <= i < count && flags[i] implies exists|j: int|
            0 <= j < now.len() && #[trigger] now[j] == i by {
            if i < c {
                let j = choose|j: int| 0 <= j < before.len() && #[trigger] before[j] == i;
                assert(now[j] == before[j]);
            } else {
                assert(now[before.len() as int] == i);
            }
        }
    }
}

proof fn lemma_after_note_offs(flags: Seq<bool>, offs: Seq<MidiMessage>, m: nat)
    requires
        flags.len() == NOTE_FLAG_COUNT,
        m <= offs.len(),
        offs.len() == sounding_flags(flags, NOTE_FLAG_COUNT as nat).len(),
        forall|j: int|
            0 <= j < offs.len() ==> is_note_off_for(
                #[trigger] offs[j],
                sounding_flags(flags, NOTE_FLAG_COUNT as nat)[j],
            ),
    ensures
        after_messages(flags, offs.take(m as int)).len() == NOTE_FLAG_COUNT,
        forall|i: int|
            0 <= i < NOTE_FLAG_COUNT ==> #[trigger] after_messages(flags, offs.take(m as int))[i] == (
            flags[i] && !exists|j: int|
                0 <= j < m && sounding_flags(flags, NOTE_FLAG_COUNT as nat)[j] == i),
    decreases m,
{
    let listed = sounding_flags(flags, NOTE_FLAG_COUNT as nat);
    lemma_sounding_flags(flags, NOTE_FLAG_COUNT as nat);
    if m == 0 {
        assert(offs.take(0) =~= Seq::<MidiMessage>::empty());
    } else {
        let k = (m - 1) as nat;
        lemma_after_note_offs(flags, offs, k);
        assert(offs.take(m as int).drop_last() =~= offs.take(k as int));
        let last = offs[k as int];
        assert(offs.take(m as int).last() == last);
        let flag = listed[k as int];
        assert(is_note_off_for(last, flag));
        assert(0 <= flag < NOTE_FLAG_COUNT);
        assert(message_flag(last) == flag);
        assert forall|i: int| 0 <= i < NOTE_FLAG_COUNT implies #[trigger] after_messages(
            flags,
            offs.take(m as int),
        )[i] == (flags[i] && !exists|j: int| 0 <= j < m && listed[j] == i) by {
            if i != flag {
                if exists|j: int| 0 <= j < m && listed[j] == i {
                    let j = choose|j: int| 0 <= j < m && listed[j] == i;
                    assert(j != k);
                }
            }
        }
    }
}

/// Delivering, in order, every note-off that `ActiveNotes::note_offs` lists leaves no note
/// sounding: the cleanup that follows a lost note-off silences the whole output.
pub proof fn lemma_note_offs_silence_all(flags: Seq<bool>, offs: Seq<MidiMessage>)
    requires
        flags.len() == NOTE_FLAG_COUNT,
        offs.len() == sounding_flags(flags, NOTE_FLAG_COUNT as nat).len(),
        forall|j: int|
            0 <= j < offs.len() ==> is_note_off_for(
                #[trigger] offs[j],
                sounding_flags(flags, NOTE_FLAG_COUNT as nat)[j],
            ),
    ensures
        after_messages(flags, offs).len() == NOTE_FLAG_COUNT,
        forall|i: int| 0 <= i < NOTE_FLAG_COUNT ==> !#[trigger] after_messages(flags, offs)[i],
{
    lemma_after_note_offs(flags, offs, offs.len());
    lemma_sounding_flags(flags, NOTE_FLAG_COUNT as nat);
    assert(offs.take(offs.len() as int) =~= offs);
    assert forall|i: int| 0 <= i < NOTE_FLAG_COUNT implies !#[trigger] after_messages(flags, offs)[i] by {
        if flags[i] {
            let j = choose|j: int|
                0 <= j < sounding_flags(flags, NOTE_FLAG_COUNT as nat).len() && #[trigger] sounding_flags(
                    flags,
                    NOTE_FLAG_COUNT as nat,
                )[j] == i;
            assert(after_messages(flags, offs.take(offs.len() as int))[i] == (flags[i] && !exists|j: int|
                0 <= j < offs.len() && sounding_flags(flags, NOTE_FLAG_COUNT as nat)[j] == i));
        }
    }
}

/// `std::io::Error::from_raw_os_error(errno).kind() == std::io::ErrorKind::WouldBlock`: whether the
/// host classifies error number `errno` as "operation would block". Which numbers those are is the
/// platform's (EAGAIN and EWOULDBLOCK on Linux); no clause states it.
#[verifier::external_body]
fn errno_would_block(errno: i32) -> bool {
    std::io::Error::from_raw_os_error(errno).kind() == std::io::ErrorKind::WouldBlock
}

/// The error number of a negative ALSA result code: ALSA returns error numbers negated.
pub fn errno_of(code: i32) -> (errno: i32)
    requires
        code != i32::MIN,
    ensures
        errno == -code,
{
    -code
}

/// Whether a negative ALSA result code means that the nonblocking output would have blocked: the
/// host's classification of the error number `-code` (see `errno_of`), which is the platform's and
/// so is not stated here.
pub fn is_would_block(code: i32) -> bool
    requires
        code != i32::MIN,
{
    errno_would_block(errno_of(code))
}

/// What the ALSA bridge does after delivering a message failed.
#[derive(Clone, Copy, Debug, PartialEq, Eq, Structural)]
pub enum OutputErrorAction {
    /// The nonblocking output was full and the message is lost: every sounding note gets a
    /// note-off, so that a lost note-off cannot leave a note hanging.
    RequestNoteCleanup,
    /// Any other failure, reported once.
    Report,
    /// Any other failure after one has been reported.
    Ignore,
}

/// Decides how the bridge answers a failed delivery.
pub fn output_error_action(would_block: bool, already_reported: bool) -> (r: OutputErrorAction)
    ensures
        r == if would_block {
            OutputErrorAction::RequestNoteCleanup
        } else if !already_reported {
            OutputErrorAction::Report
        } else {
            OutputErrorAction::Ignore
        },
{
    if would_block {
        OutputErrorAction::RequestNoteCleanup
    } else if !already_reported {
        OutputErrorAction::Report
    } else {
        OutputErrorAction::Ignore
    }
}

/// Deliveries the ALSA compatibility bridge retries at shutdown before it gives up on silencing the
/// sounding notes.
pub const SHUTDOWN_CLEANUP_ATTEMPTS: u8 = 10;

/// The ALSA bridge worker's state: whether every sounding note must be silenced (because a message,
/// perhaps a note-off, was lost), whether a delivery failure has been reported, and which notes
/// sound.
pub struct BridgeState {
    pub cleanup_requested: bool,
    pub reported_output_error: bool,
    pub active: ActiveNotes,
}

/// What happened to the bridge.
#[derive(Clone, Copy, Debug, PartialEq, Eq, Structural)]
pub enum BridgeEvent {
    /// The queue from the realtime callback was full and a scheduled message was lost.
    QueueOverflowed,
    /// A scheduled message reached the output.
    Delivered(MidiMessage),
    /// A scheduled message could not be delivered; `would_block` when the nonblocking output was
    /// full.
    DeliveryFailed { would_block: bool },
    /// A cleanup note-off reached the output.
    NoteOffDelivered(MidiMessage),
    /// A cleanup note-off could not be delivered.
    NoteOffFailed,
}

impl BridgeState {
    /// Nothing to clean up, nothing reported, no note sounding.
    pub fn new() -> (r: Self)
        ensures
            !r.cleanup_requested,
            !r.reported_output_error,
            r.active.wf(),
            forall|i: int| 0 <= i < NOTE_FLAG_COUNT ==> !#[trigger] r.active@[i],
    {
        BridgeState {
            cleanup_requested: false,
            reported_output_error: false,
            active: ActiveNotes::new(),
        }
    }
}

/// Advances the bridge by one event; `report` tells the caller to report the failure (once).
///
/// A lost message, or a delivery the full output refused, requests a cleanup of every sounding
/// note, so that a lost note-off cannot leave a note hanging; a failed cleanup note-off keeps the
/// request; a delivered message updates the sounding notes.
pub fn bridge_step(state: &mut BridgeState, event: BridgeEvent) -> (report: bool)
    requires
        old(state).active.wf(),
    ensures
        final(state).active.wf(),
        match event {
            BridgeEvent::QueueOverflowed => {
                &&& final(state).cleanup_requested
                &&& final(state).reported_output_error == old(state).reported_output_error
                &&& final(state).active@ == old(state).active@
                &&& !report
            },
            BridgeEvent::Delivered(message) => {
                &&& final(state).cleanup_requested == old(state).cleanup_requested
                &&& final(state).reported_output_error == old(state).reported_output_error
                &&& final(state).active@ == old(state).active@.update(
                    message_flag(message),
                    sounds_after(message),
                )
                &&& !report
            },
            BridgeEvent::DeliveryFailed { would_block } => {
                &&& final(state).cleanup_requested == (old(state).cleanup_requested || would_block)
                &&& final(state).reported_output_error == (old(state).reported_output_error
                    || !would_block)
                &&& final(state).active@ == old(state).active@
                &&& report == (!would_block && !old(state).reported_output_error)
            },
            BridgeEvent::NoteOffDelivered(message) => {
                &&& final(state).cleanup_requested == old(state).cleanup_requested
                &&& final(state).reported_output_error == old(state).reported_output_error
                &&& final(state).active@ == old(state).active@.update(
                    message_flag(message),
                    sounds_after(message),
                )
                &&& !report
            },
            BridgeEvent::NoteOffFailed => {
                &&& final(state).cleanup_requested
                &&& final(state).reported_output_error == old(state).reported_output_error
                &&& final(state).active@ == old(state).active@
                &&& !report
            },
        },
{
    match event {
        BridgeEvent::QueueOverflowed => {
            state.cleanup_requested = true;
            false
        },
        BridgeEvent::Delivered(message) => {
            state.active.record(message);
            false
        },
        BridgeEvent::DeliveryFailed { would_block } => {
            match output_error_action(would_block, state.reported_output_error) {
                OutputErrorAction::RequestNoteCleanup => {
                    state.cleanup_requested = true;
                    false
                },
                OutputErrorAction::Report => {
                    state.reported_output_error = true;
                    true
                },
                OutputErrorAction::Ignore => false,
            }
        },
        BridgeEvent::NoteOffDelivered(message) => {
            state.active.record(message);
            false
        },
        BridgeEvent::NoteOffFailed => {
            state.cleanup_requested = true;
            false
        },
    }
}

/// Starts a requested cleanup: takes the request (so that failures during the cleanup can set it
/// again) and tells whether there was one.
pub fn begin_cleanup(state: &mut BridgeState) -> (requested: bool)
    ensures
        requested == old(state).cleanup_requested,
        !final(state).cleanup_requested,
        final(state).reported_output_error == old(state).reported_output_error,
        final(state).active@ == old(state).active@,
{
    let requested = state.cleanup_requested;
    state.cleanup_requested = false;
    requested
}

/// Whether the shutdown cleanup tries again after attempt number `attempt` (counting from zero):
/// while a note-off failed, up to `SHUTDOWN_CLEANUP_ATTEMPTS` attempts in all.
pub fn shutdown_retry(attempt: u8, all_sent: bool) -> (r: bool)
    ensures
        r == (!all_sent && attempt + 1 < SHUTDOWN_CLEANUP_ATTEMPTS),
{
    !all_sent && (attempt as u16) + 1 < SHUTDOWN_CLEANUP_ATTEMPTS as u16
}

} // verus!
