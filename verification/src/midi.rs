//! Pitch and chord theory, and the timeline generator that turns a syntax
//! tree into an ordered list of timed MIDI-style events.

use vstd::prelude::*;

use crate::syntax::Accidental;
use crate::syntax::ChordExtension;
use crate::syntax::ChordName;
use crate::syntax::ChordNameView;
use crate::syntax::ChordQuality;
use crate::syntax::NoteLength;
use crate::syntax::NoteName;
use crate::syntax::Root;
use crate::syntax::RootView;
use crate::syntax::SeqEvent;
use crate::syntax::SeqEventView;
use crate::syntax::Sequence;
use crate::syntax::SequenceView;
use crate::syntax::SingleNote;
use crate::syntax::Statement;
use crate::syntax::StatementView;
use crate::syntax::TimeSignature;
use crate::syntax::supported_denominator;

verus! {

/// The lowest pitch that an event can carry.
pub const MIN_PITCH: u8 = 0;

/// The highest pitch that an event can carry.
pub const MAX_PITCH: u8 = 127;

/// A resolved pitch that lies outside the range of MIDI keys.
#[derive(Debug, Clone, Copy, PartialEq, Eq, Structural)]
pub struct PitchRangeError {
    /// The pitch as it was resolved.
    pub pitch: i64,
}

/// Calls `midly::num::u7::try_from`, the checked constructor of midly's
/// seven-bit integer, and hands the accepted value back as a plain byte.
/// The claim: values up to 127 are accepted unchanged, all others refused.
#[verifier::external_body]
fn u7_try_from(raw: u8) -> (key: Option<u8>)
    ensures
        key == (if raw <= 0x7f { Some(raw) } else { None::<u8> }),
{
    match midly::num::u7::try_from(raw) {
        Some(value) => Some(value.as_int()),
        None => None,
    }
}

/// Semitones of a note letter above C.
pub open spec fn semitone(name: NoteName) -> int {
    match name {
        NoteName::C => 0,
        NoteName::D => 2,
        NoteName::E => 4,
        NoteName::F => 5,
        NoteName::G => 7,
        NoteName::A => 9,
        NoteName::B => 11,
    }
}

/// Semitones that an accidental adds.
pub open spec fn adjustment(accidental: Accidental) -> int {
    match accidental {
        Accidental::Sharp => 1,
        Accidental::Flat => -1,
        Accidental::Natural => 0,
    }
}

/// The pitch of a note: octave 3 holds middle C, pitch 60, and octave 4 the
/// C above it, pitch 72.
pub open spec fn note_pitch(name: NoteName, accidental: Accidental, octave: int) -> int {
    semitone(name) + adjustment(accidental) + (octave + 2) * 12
}

pub open spec fn in_pitch_range(pitch: int) -> bool {
    MIN_PITCH <= pitch <= MAX_PITCH
}

/// The key of a note, or the error that carries its pitch where that lies
/// outside the range of keys.
pub open spec fn note_key(name: NoteName, accidental: Accidental, octave: int) -> Result<
    u8,
    PitchRangeError,
> {
    let pitch = note_pitch(name, accidental, octave);
    if in_pitch_range(pitch) {
        Ok(pitch as u8)
    } else {
        Err(PitchRangeError { pitch: pitch as i64 })
    }
}

/// A sharp raises a note by one semitone and a flat lowers it by one,
/// whatever the letter and the octave.
pub proof fn lemma_accidental_shifts_pitch(name: NoteName, octave: int)
    ensures
        note_pitch(name, Accidental::Natural, octave) == note_pitch(name, Accidental::Sharp, octave)
            - 1,
        note_pitch(name, Accidental::Natural, octave) == note_pitch(name, Accidental::Flat, octave)
            + 1,
{
}

/// The key of a note, or the error that carries its pitch where that lies
/// outside the range of keys.
pub fn midi_note(name: NoteName, accidental: Accidental, octave: i32) -> (key: Result<
    u8,
    PitchRangeError,
>)
    ensures
        key == note_key(name, accidental, octave as int),
{
    let note: i64 = match name {
        NoteName::C => 0,
        NoteName::D => 2,
        NoteName::E => 4,
        NoteName::F => 5,
        NoteName::G => 7,
        NoteName::A => 9,
        NoteName::B => 11,
    };
    let note: i64 = match accidental {
        Accidental::Sharp => note + 1,
        Accidental::Flat => note - 1,
        Accidental::Natural => note,
    };
    let octave: i64 = octave as i64 + 2;
    let note: i64 = note + octave * 12;
    if 0 <= note && note <= 127 {
        Ok(note as u8)
    } else {
        Err(PitchRangeError { pitch: note })
    }
}

/// True where every pitch is the pitch of a key.
pub open spec fn all_in_range(pitches: Seq<int>) -> bool {
    forall|i: int| 0 <= i < pitches.len() ==> in_pitch_range(#[trigger] pitches[i])
}

/// The index of the first pitch that is not the pitch of a key.
pub open spec fn first_out_of_range(pitches: Seq<int>) -> int {
    choose|i: int|
        0 <= i < pitches.len() && !in_pitch_range(pitches[i]) && forall|j: int|
            0 <= j < i ==> in_pitch_range(#[trigger] pitches[j])
}

/// The keys of the pitches, or the error of the first pitch that has none.
pub open spec fn resolve_keys(pitches: Seq<int>) -> Result<Seq<u8>, PitchRangeError> {
    if all_in_range(pitches) {
        Ok(pitches.map_values(|pitch: int| pitch as u8))
    } else {
        Err(PitchRangeError { pitch: pitches[first_out_of_range(pitches)] as i64 })
    }
}

/// A pitch out of range with none before it is the first one.
pub proof fn lemma_first_out_of_range(pitches: Seq<int>, i: int)
    requires
        0 <= i < pitches.len(),
        !in_pitch_range(pitches[i]),
        forall|j: int| 0 <= j < i ==> in_pitch_range(#[trigger] pitches[j]),
    ensures
        !all_in_range(pitches),
        first_out_of_range(pitches) == i,
{
    let k = first_out_of_range(pitches);
    assert(0 <= k < pitches.len() && !in_pitch_range(pitches[k]) && forall|j: int|
        0 <= j < k ==> in_pitch_range(#[trigger] pitches[j]));
    if k < i {
        assert(in_pitch_range(pitches[k]));
    }
    if i < k {
        assert(in_pitch_range(pitches[i]));
    }
}

/// The intervals of the seven scale degrees above the root, in semitones.
pub open spec fn scale(quality: ChordQuality) -> Seq<int> {
    match quality {
        ChordQuality::Major => seq![0, 2, 4, 5, 7, 9, 11],
        ChordQuality::Minor => seq![0, 2, 3, 5, 7, 8, 10],
        ChordQuality::Diminished => seq![0, 2, 3, 5, 6, 8, 10],
        ChordQuality::Augmented => seq![0, 2, 4, 5, 7, 9, 11],
    }
}

/// The interval above the root of the tone that an extension adds.
pub open spec fn extension_interval(quality: ChordQuality, extension: ChordExtension) -> int {
    match extension {
        ChordExtension::Sixth => scale(quality)[5],
        ChordExtension::Seventh => scale(quality)[6],
        ChordExtension::Ninth => scale(quality)[1] + 12,
        ChordExtension::Eleventh => scale(quality)[3] + 12,
        ChordExtension::Thirteenth => scale(quality)[5] + 12,
    }
}

/// The tone of an extension where the chord asks for it, nothing otherwise.
pub open spec fn added_tone(
    quality: ChordQuality,
    extensions: Seq<ChordExtension>,
    extension: ChordExtension,
) -> Seq<int> {
    if extensions.contains(extension) {
        seq![extension_interval(quality, extension)]
    } else {
        Seq::empty()
    }
}

/// The intervals of a chord's tones above its root: the triad of root, third
/// and fifth, then the tone of each extension that occurs at least once.
pub open spec fn chord_intervals(quality: ChordQuality, extensions: Seq<ChordExtension>) -> Seq<
    int,
> {
    seq![0, scale(quality)[2], scale(quality)[4]] + added_tone(
        quality,
        extensions,
        ChordExtension::Sixth,
    ) + added_tone(quality, extensions, ChordExtension::Seventh) + added_tone(
        quality,
        extensions,
        ChordExtension::Ninth,
    ) + added_tone(quality, extensions, ChordExtension::Eleventh) + added_tone(
        quality,
        extensions,
        ChordExtension::Thirteenth,
    )
}

/// The pitches of a named chord, lowest first.
pub open spec fn chord_pitches(chord: ChordNameView) -> Seq<int> {
    let root = note_pitch(chord.root, chord.root_accidental, chord.root_octave_number as int);
    chord_intervals(chord.quality, chord.extensions).map_values(|interval: int| root + interval)
}

pub open spec fn strictly_ascending(values: Seq<int>) -> bool {
    forall|i: int, j: int| 0 <= i < j < values.len() ==> values[i] < values[j]
}

proof fn lemma_add_tone(
    prefix: Seq<int>,
    quality: ChordQuality,
    extensions: Seq<ChordExtension>,
    extension: ChordExtension,
    highest: int,
)
    requires
        strictly_ascending(prefix),
        forall|i: int| 0 <= i < prefix.len() ==> prefix[i] <= highest,
        highest < extension_interval(quality, extension),
    ensures
        strictly_ascending(prefix + added_tone(quality, extensions, extension)),
        forall|i: int|
            0 <= i < (prefix + added_tone(quality, extensions, extension)).len() ==> (prefix
                + added_tone(quality, extensions, extension))[i] <= extension_interval(
                quality,
                extension,
            ),
{
}

/// The tones of a chord come lowest first and none comes twice, however
/// often an extension is asked for.
pub proof fn lemma_chord_intervals_ascending(
    quality: ChordQuality,
    extensions: Seq<ChordExtension>,
)
    ensures
        strictly_ascending(chord_intervals(quality, extensions)),
        chord_intervals(quality, extensions).len() >= 3,
        forall|i: int|
            0 <= i < chord_intervals(quality, extensions).len() ==> 0 <= #[trigger] chord_intervals(
                quality,
                extensions,
            )[i] <= 23,
{
    let triad = seq![0, scale(quality)[2], scale(quality)[4]];
    let with_sixth = triad + added_tone(quality, extensions, ChordExtension::Sixth);
    let with_seventh = with_sixth + added_tone(quality, extensions, ChordExtension::Seventh);
    let with_ninth = with_seventh + added_tone(quality, extensions, ChordExtension::Ninth);
    let with_eleventh = with_ninth + added_tone(quality, extensions, ChordExtension::Eleventh);
    assert(strictly_ascending(triad));
    lemma_add_tone(triad, quality, extensions, ChordExtension::Sixth, scale(quality)[4]);
    lemma_add_tone(with_sixth, quality, extensions, ChordExtension::Seventh, scale(quality)[5]);
    lemma_add_tone(with_seventh, quality, extensions, ChordExtension::Ninth, scale(quality)[6]);
    lemma_add_tone(
        with_ninth,
        quality,
        extensions,
        ChordExtension::Eleventh,
        scale(quality)[1] + 12,
    );
    lemma_add_tone(
        with_eleventh,
        quality,
        extensions,
        ChordExtension::Thirteenth,
        scale(quality)[3] + 12,
    );
    let all = chord_intervals(quality, extensions);
    assert forall|i: int| 0 <= i < all.len() implies 0 <= #[trigger] all[i] <= 23 by {
        assert(all[0] == 0);
        if i > 0 {
            assert(all[0] < all[i]);
        }
    }
}

/// The extensions of a chord are a set: two lists that hold the same
/// extensions, in whatever order and number, name the same tones.
pub proof fn lemma_extensions_are_a_set(
    quality: ChordQuality,
    first: Seq<ChordExtension>,
    second: Seq<ChordExtension>,
)
    requires
        forall|extension: ChordExtension| first.contains(extension) == second.contains(extension),
    ensures
        chord_intervals(quality, first) == chord_intervals(quality, second),
{
}

/// The pitches of a named chord come lowest first and none comes twice.
pub proof fn lemma_chord_pitches_ascending(chord: ChordNameView)
    ensures
        strictly_ascending(chord_pitches(chord)),
{
    lemma_chord_intervals_ascending(chord.quality, chord.extensions);
}

fn degree(quality: ChordQuality, index: usize) -> (interval: u8)
    requires
        index < 7,
    ensures
        interval == scale(quality)[index as int],
{
    let steps: [u8; 7] = match quality {
        ChordQuality::Major => [0, 2, 4, 5, 7, 9, 11],
        ChordQuality::Minor => [0, 2, 3, 5, 7, 8, 10],
        ChordQuality::Diminished => [0, 2, 3, 5, 6, 8, 10],
        ChordQuality::Augmented => [0, 2, 4, 5, 7, 9, 11],
    };
    steps[index]
}

fn has_extension(extensions: &Vec<ChordExtension>, extension: ChordExtension) -> (found: bool)
    ensures
        found == extensions@.contains(extension),
{
    let mut i: usize = 0;
    while i < extensions.len()
        invariant
            i <= extensions.len(),
            forall|j: int| 0 <= j < i ==> extensions@[j] != extension,
        decreases extensions.len() - i,
    {
        if extensions[i] == extension {
            return true;
        }
        i += 1;
    }
    false
}

fn add_tone(
    intervals: &mut Vec<u8>,
    quality: ChordQuality,
    extensions: &Vec<ChordExtension>,
    extension: ChordExtension,
)
    ensures
        final(intervals)@.map_values(|interval: u8| interval as int) == old(intervals)@.map_values(
            |interval: u8| interval as int,
        ) + added_tone(quality, extensions@, extension),
{
    if has_extension(extensions, extension) {
        let interval: u8 = match extension {
            ChordExtension::Sixth => degree(quality, 5),
            ChordExtension::Seventh => degree(quality, 6),
            ChordExtension::Ninth => degree(quality, 1) + 12,
            ChordExtension::Eleventh => degree(quality, 3) + 12,
            ChordExtension::Thirteenth => degree(quality, 5) + 12,
        };
        intervals.push(interval);
    }
    assert(intervals@.map_values(|interval: u8| interval as int) =~= old(intervals)@.map_values(
        |interval: u8| interval as int,
    ) + added_tone(quality, extensions@, extension));
}

fn interval_list(quality: ChordQuality, extensions: &Vec<ChordExtension>) -> (intervals: Vec<u8>)
    ensures
        intervals@.map_values(|interval: u8| interval as int) == chord_intervals(
            quality,
            extensions@,
        ),
{
    let mut intervals: Vec<u8> = Vec::new();
    intervals.push(0);
    intervals.push(degree(quality, 2));
    intervals.push(degree(quality, 4));
    assert(intervals@.map_values(|interval: u8| interval as int) =~= seq![
        0,
        scale(quality)[2],
        scale(quality)[4],
    ]);
    add_tone(&mut intervals, quality, extensions, ChordExtension::Sixth);
    add_tone(&mut intervals, quality, extensions, ChordExtension::Seventh);
    add_tone(&mut intervals, quality, extensions, ChordExtension::Ninth);
    add_tone(&mut intervals, quality, extensions, ChordExtension::Eleventh);
    add_tone(&mut intervals, quality, extensions, ChordExtension::Thirteenth);
    intervals
}

/// The keys of a named chord, lowest first and each once, or the error of
/// its first tone that lies outside the range of keys.
pub fn midi_named_chord(chord: &ChordName) -> (keys: Result<Vec<u8>, PitchRangeError>)
    ensures
        match resolve_keys(chord_pitches(chord@)) {
            Ok(expected) => keys matches Ok(found) && found@ == expected,
            Err(error) => keys matches Err(found) && found == error,
        },
{
    let ghost pitches = chord_pitches(chord@);
    proof {
        lemma_chord_intervals_ascending(chord.quality, chord.extensions@);
    }
    let root: u8 = match midi_note(chord.root, chord.root_accidental, chord.root_octave_number) {
        Ok(root) => root,
        Err(error) => {
            proof {
                lemma_first_out_of_range(pitches, 0);
            }
            return Err(error);
        },
    };
    let intervals: Vec<u8> = interval_list(chord.quality, &chord.extensions);
    let ghost wide = intervals@.map_values(|interval: u8| interval as int);
    let mut keys: Vec<u8> = Vec::new();
    let mut i: usize = 0;
    while i < intervals.len()
        invariant
            i <= intervals.len(),
            wide == intervals@.map_values(|interval: u8| interval as int),
            wide == chord_intervals(chord.quality, chord.extensions@),
            pitches == chord_pitches(chord@),
            pitches.len() == intervals.len(),
            root == note_pitch(chord.root, chord.root_accidental, chord.root_octave_number as int),
            root <= 127,
            forall|j: int| 0 <= j < wide.len() ==> 0 <= #[trigger] wide[j] <= 23,
            keys@.len() == i,
            forall|j: int| 0 <= j < i ==> in_pitch_range(pitches[j]) && keys@[j] == pitches[j],
        decreases intervals.len() - i,
    {
        assert(wide[i as int] == intervals@[i as int]);
        let pitch: u8 = root + intervals[i];
        assert(pitch == pitches[i as int]);
        match u7_try_from(pitch) {
            Some(key) => {
                keys.push(key);
            },
            None => {
                proof {
                    lemma_first_out_of_range(pitches, i as int);
                }
                return Err(PitchRangeError { pitch: pitch as i64 });
            },
        }
        i += 1;
    }
    assert(all_in_range(pitches));
    assert(keys@ =~= pitches.map_values(|pitch: int| pitch as u8));
    Ok(keys)
}

/// Ticks of a quarter note.
pub const TICKS_PER_BEAT: u32 = 96;

/// Beats per minute of a sequence that declares no tempo.
pub const DEFAULT_TEMPO: u32 = 120;

pub const MICROSECONDS_PER_MINUTE: u32 = 60_000_000;

/// The longest beat that a tempo event can carry: 24 bits of microseconds.
pub const MAX_BEAT_MICROSECONDS: u32 = 0x00ff_ffff;

/// The longest gap that an event can carry: 28 bits of ticks.
pub const MAX_DELTA: u32 = 0x0fff_ffff;

pub const CHANNEL: u8 = 0;

pub const NOTE_ON_VELOCITY: u8 = 127;

pub const NOTE_OFF_VELOCITY: u8 = 0;

/// MIDI clocks per metronome click, as the time signature event states it.
pub const CLOCKS_PER_CLICK: u8 = 36;

/// Notated 32nd notes per quarter note, as the time signature event states it.
pub const THIRTY_SECONDS_PER_QUARTER: u8 = 8;

/// What an event of the timeline carries.
#[derive(Debug, Clone, Copy, PartialEq, Eq, Structural)]
pub enum TrackEventKind {
    /// Microseconds per beat.
    Tempo(u32),
    /// Numerator, denominator as a power of two, clocks per click, 32nd
    /// notes per quarter note.
    TimeSignature(u8, u8, u8, u8),
    NoteOn { channel: u8, key: u8, vel: u8 },
    NoteOff { channel: u8, key: u8, vel: u8 },
    EndOfTrack,
}

/// An event and the ticks between the event before it and itself.
#[derive(Debug, Clone, Copy, PartialEq, Eq, Structural)]
pub struct TrackEvent {
    pub delta: u32,
    pub kind: TrackEventKind,
}

/// One track of timed events and the resolution that its ticks are counted
/// in.
#[derive(Debug, Clone, PartialEq, Eq)]
pub struct Timeline {
    pub ticks_per_beat: u32,
    pub events: Vec<TrackEvent>,
}

/// Why a syntax tree has no timeline.
#[derive(Debug, Clone, Copy, PartialEq, Eq, Structural)]
pub enum CompileError {
    /// The tree holds no sequence.
    NoSequence,
    /// The tempo is zero, or so slow that a beat exceeds
    /// `MAX_BEAT_MICROSECONDS`.
    TempoRange,
    /// The denominator of the time signature names no note length.
    UnsupportedDenominator,
    /// A note or chord tone lies outside the range of keys.
    PitchRange(PitchRangeError),
    /// A duration or a gap between two events has more ticks than fit.
    TickOverflow,
}

/// Calls `midly::num::u24::try_from`, the checked constructor of midly's
/// 24-bit integer, and hands the accepted value back as a plain integer.
/// The claim: values up to 2^24 - 1 are accepted unchanged, all others
/// refused.
#[verifier::external_body]
fn u24_try_from(raw: u32) -> (value: Option<u32>)
    ensures
        value == (if raw <= 0x00ff_ffff { Some(raw) } else { None::<u32> }),
{
    match midly::num::u24::try_from(raw) {
        Some(value) => Some(value.as_int()),
        None => None,
    }
}

/// Calls `midly::num::u28::try_from`, the checked constructor of midly's
/// 28-bit integer, and hands the accepted value back as a plain integer.
/// The claim: values up to 2^28 - 1 are accepted unchanged, all others
/// refused.
#[verifier::external_body]
fn u28_try_from(raw: u32) -> (value: Option<u32>)
    ensures
        value == (if raw <= 0x0fff_ffff { Some(raw) } else { None::<u32> }),
{
    match midly::num::u28::try_from(raw) {
        Some(value) => Some(value.as_int()),
        None => None,
    }
}

/// The ticks that have passed since the last event was emitted: the one
/// piece of state that the timeline generator keeps between events.
#[derive(Debug, Clone, Copy, PartialEq, Eq, Structural)]
pub struct TickAccumulator {
    pub ticks: u32,
}

impl TickAccumulator {
    pub fn new() -> (accumulator: Self)
        ensures
            accumulator.ticks == 0,
    {
        TickAccumulator { ticks: 0 }
    }

    /// Lets time pass without an event. Fails, and changes nothing, where
    /// the count would no longer fit.
    pub fn advance(&mut self, ticks: u32) -> (done: Result<(), CompileError>)
        ensures
            old(self).ticks + ticks <= u32::MAX ==> done is Ok && final(self).ticks
                == old(self).ticks + ticks,
            old(self).ticks + ticks > u32::MAX ==> done == Err::<(), _>(CompileError::TickOverflow)
                && *final(self) == *old(self),
    {
        match self.ticks.checked_add(ticks) {
            Some(sum) => {
                self.ticks = sum;
                Ok(())
            },
            None => Err(CompileError::TickOverflow),
        }
    }

    /// Hands out the gap that the next event carries and starts counting
    /// anew. Fails, and changes nothing, where no event can carry the gap.
    pub fn flush(&mut self) -> (delta: Result<u32, CompileError>)
        ensures
            old(self).ticks <= MAX_DELTA ==> delta == Ok::<_, CompileError>(old(self).ticks)
                && final(self).ticks == 0,
            old(self).ticks > MAX_DELTA ==> delta == Err::<u32, _>(CompileError::TickOverflow)
                && *final(self) == *old(self),
    {
        match u28_try_from(self.ticks) {
            Some(delta) => {
                self.ticks = 0;
                Ok(delta)
            },
            None => Err(CompileError::TickOverflow),
        }
    }
}

pub open spec fn note_on(delta: u32, key: u8) -> TrackEvent {
    TrackEvent {
        delta,
        kind: TrackEventKind::NoteOn { channel: CHANNEL, key, vel: NOTE_ON_VELOCITY },
    }
}

pub open spec fn note_off(delta: u32, key: u8) -> TrackEvent {
    TrackEvent {
        delta,
        kind: TrackEventKind::NoteOff { channel: CHANNEL, key, vel: NOTE_OFF_VELOCITY },
    }
}

/// One event for each key, all at the same moment: the first carries the
/// gap, the others carry none.
pub open spec fn together(keys: Seq<u8>, delta: u32, sounding: bool) -> Seq<TrackEvent> {
    Seq::new(
        keys.len(),
        |i: int|
            {
                let gap = if i == 0 {
                    delta
                } else {
                    0
                };
                if sounding {
                    note_on(gap, keys[i])
                } else {
                    note_off(gap, keys[i])
                }
            },
    )
}

/// The pitches that an event sounds, in the order in which they are emitted:
/// as written for a list chord, lowest first for a named chord, none for a
/// rest.
pub open spec fn event_pitches(event: SeqEventView) -> Seq<int> {
    match event {
        SeqEventView::Single(note) => seq![
            note_pitch(note.note_name, note.accidental, note.octave_number as int),
        ],
        SeqEventView::ListChord(chord) => Seq::new(
            chord.notes.len(),
            |i: int|
                note_pitch(
                    chord.notes[i].note_name,
                    chord.notes[i].accidental,
                    chord.notes[i].octave_number as int,
                ),
        ),
        SeqEventView::NamedChord(chord) => chord_pitches(chord.chord_name),
        SeqEventView::Rest(_) => Seq::empty(),
    }
}

pub open spec fn event_length(event: SeqEventView) -> NoteLength {
    match event {
        SeqEventView::Single(note) => note.note_length,
        SeqEventView::ListChord(chord) => chord.note_length,
        SeqEventView::NamedChord(chord) => chord.note_length,
        SeqEventView::Rest(length) => length,
    }
}

/// The ticks of a duration at the timeline's resolution.
pub open spec fn length_ticks(length: NoteLength, time_signature: TimeSignature) -> Result<
    u32,
    CompileError,
> {
    if length is Bars && !supported_denominator(time_signature.spec_denominator() as int) {
        Err(CompileError::UnsupportedDenominator)
    } else if length.spec_ticks(TICKS_PER_BEAT as int, time_signature) > u32::MAX {
        Err(CompileError::TickOverflow)
    } else {
        Ok(length.spec_ticks(TICKS_PER_BEAT as int, time_signature) as u32)
    }
}

/// What one event of a sequence adds to the timeline, and the ticks that
/// have passed since the last emitted event once it is done, given those
/// that had passed before it.
///
/// An event without pitches only lets its duration pass. Any other starts
/// all its notes together after the gap, and stops them together after its
/// duration.
#[verifier::opaque]
pub open spec fn step(event: SeqEventView, time_signature: TimeSignature, gap: u32) -> Result<
    (Seq<TrackEvent>, u32),
    CompileError,
> {
    match resolve_keys(event_pitches(event)) {
        Err(error) => Err(CompileError::PitchRange(error)),
        Ok(keys) => match length_ticks(event_length(event), time_signature) {
            Err(error) => Err(error),
            Ok(ticks) => if keys.len() == 0 {
                if gap + ticks > u32::MAX {
                    Err(CompileError::TickOverflow)
                } else {
                    Ok((Seq::empty(), (gap + ticks) as u32))
                }
            } else if gap > MAX_DELTA || ticks > MAX_DELTA {
                Err(CompileError::TickOverflow)
            } else {
                Ok((together(keys, gap, true) + together(keys, ticks, false), 0u32))
            },
        },
    }
}

/// The events in front of what follows them, where anything follows.
pub open spec fn prepend(
    events: Seq<TrackEvent>,
    rest: Result<Seq<TrackEvent>, CompileError>,
) -> Result<Seq<TrackEvent>, CompileError> {
    match rest {
        Ok(more) => Ok(events + more),
        Err(error) => Err(error),
    }
}

/// The events of a run of sequence events, taken in order, or the first
/// error on the way.
pub open spec fn timeline(
    events: Seq<SeqEventView>,
    time_signature: TimeSignature,
    gap: u32,
) -> Result<
    Seq<TrackEvent>,
    CompileError,
>
    decreases events.len(),
{
    if events.len() == 0 {
        Ok(Seq::empty())
    } else {
        match step(events[0], time_signature, gap) {
            Err(error) => Err(error),
            Ok((emitted, next)) => prepend(
                emitted,
                timeline(events.drop_first(), time_signature, next),
            ),
        }
    }
}

/// Beats per minute of a sequence.
pub open spec fn sequence_tempo(sequence: SequenceView) -> u32 {
    match sequence.tempo {
        Some(tempo) => tempo.tempo,
        None => DEFAULT_TEMPO,
    }
}

/// The time signature of a sequence: common time where it declares none.
pub open spec fn sequence_time_signature(sequence: SequenceView) -> TimeSignature {
    match sequence.time_signature {
        Some(time_signature) => time_signature,
        None => TimeSignature::spec_new(4, 4),
    }
}

/// The length of a beat in microseconds at a tempo in beats per minute.
pub open spec fn beat_microseconds(tempo: u32) -> Result<u32, CompileError> {
    if tempo == 0 || MICROSECONDS_PER_MINUTE / tempo > MAX_BEAT_MICROSECONDS {
        Err(CompileError::TempoRange)
    } else {
        Ok((MICROSECONDS_PER_MINUTE / tempo) as u32)
    }
}

/// The power of two that a denominator is.
pub open spec fn denominator_exponent(denominator: u8) -> Result<u8, CompileError> {
    if denominator == 1 {
        Ok(0u8)
    } else if denominator == 2 {
        Ok(1u8)
    } else if denominator == 4 {
        Ok(2u8)
    } else if denominator == 8 {
        Ok(3u8)
    } else if denominator == 16 {
        Ok(4u8)
    } else if denominator == 32 {
        Ok(5u8)
    } else if denominator == 64 {
        Ok(6u8)
    } else {
        Err(CompileError::UnsupportedDenominator)
    }
}

pub open spec fn tempo_event(microseconds: u32) -> TrackEvent {
    TrackEvent { delta: 0, kind: TrackEventKind::Tempo(microseconds) }
}

pub open spec fn time_signature_event(numerator: u8, exponent: u8) -> TrackEvent {
    TrackEvent {
        delta: 0,
        kind: TrackEventKind::TimeSignature(
            numerator,
            exponent,
            CLOCKS_PER_CLICK,
            THIRTY_SECONDS_PER_QUARTER,
        ),
    }
}

pub open spec fn end_of_track() -> TrackEvent {
    TrackEvent { delta: 0, kind: TrackEventKind::EndOfTrack }
}

/// The track of a sequence: its tempo and its time signature, the events of
/// its notes, chords and rests in source order, and the end-of-track marker.
pub open spec fn compile_sequence(sequence: SequenceView) -> Result<
    Seq<TrackEvent>,
    CompileError,
> {
    let time_signature = sequence_time_signature(sequence);
    match beat_microseconds(sequence_tempo(sequence)) {
        Err(error) => Err(error),
        Ok(microseconds) => match denominator_exponent(time_signature.spec_denominator()) {
            Err(error) => Err(error),
            Ok(exponent) => match timeline(sequence.notes, time_signature, 0) {
                Err(error) => Err(error),
                Ok(body) => Ok(
                    seq![
                        tempo_event(microseconds),
                        time_signature_event(time_signature.spec_numerator(), exponent),
                    ] + body + seq![end_of_track()],
                ),
            },
        },
    }
}

/// The track of a syntax tree: that of its first sequence.
pub open spec fn compile(root: RootView) -> Result<Seq<TrackEvent>, CompileError> {
    if root.statements.len() == 0 {
        Err(CompileError::NoSequence)
    } else {
        match root.statements[0] {
            StatementView::Sequence(sequence) => compile_sequence(sequence),
        }
    }
}

/// A rest starts and stops nothing: it adds no event, and its duration
/// joins the gap that the next event will carry.
pub proof fn lemma_rest_is_silent(length: NoteLength, time_signature: TimeSignature, gap: u32)
    ensures
        step(SeqEventView::Rest(length), time_signature, gap) == (match length_ticks(
            length,
            time_signature,
        ) {
            Err(error) => Err(error),
            Ok(ticks) => if gap + ticks > u32::MAX {
                Err(CompileError::TickOverflow)
            } else {
                Ok((Seq::<TrackEvent>::empty(), (gap + ticks) as u32))
            },
        }),
{
    reveal(step);
    assert(all_in_range(event_pitches(SeqEventView::Rest(length))));
    assert(event_pitches(SeqEventView::Rest(length)).map_values(|pitch: int| pitch as u8)
        =~= Seq::<u8>::empty());
}

/// The notes of an event start together and stop together, in the order of
/// its pitches: as many note-on events as pitches, of which the first
/// carries the gap before the event and the others none, then as many
/// note-off events, of which the first carries the duration and the others
/// none. Nothing of the gap is left behind them.
pub proof fn lemma_notes_sound_together(
    event: SeqEventView,
    time_signature: TimeSignature,
    gap: u32,
)
    requires
        event_pitches(event).len() > 0,
        step(event, time_signature, gap) is Ok,
    ensures
        ({
            let (emitted, next) = step(event, time_signature, gap)->Ok_0;
            let pitches = event_pitches(event);
            let count = pitches.len() as int;
            let ticks = length_ticks(event_length(event), time_signature)->Ok_0;
            &&& next == 0
            &&& emitted.len() == 2 * count
            &&& all_in_range(pitches)
            &&& forall|i: int|
                0 <= i < count ==> #[trigger] emitted[i] == note_on(
                    if i == 0 {
                        gap
                    } else {
                        0
                    },
                    pitches[i] as u8,
                )
            &&& forall|i: int|
                0 <= i < count ==> #[trigger] emitted[count + i] == note_off(
                    if i == 0 {
                        ticks
                    } else {
                        0
                    },
                    pitches[i] as u8,
                )
        }),
{
    reveal(step);
}

/// A single note whose pitch is a key is one note-on at the gap before it
/// and one note-off at its duration.
pub proof fn lemma_single_note(note: SingleNote, time_signature: TimeSignature, gap: u32)
    requires
        step(SeqEventView::Single(note), time_signature, gap) is Ok,
    ensures
        ({
            let key = note_pitch(note.note_name, note.accidental, note.octave_number as int);
            let ticks = length_ticks(note.note_length, time_signature)->Ok_0;
            &&& in_pitch_range(key)
            &&& step(SeqEventView::Single(note), time_signature, gap) == Ok::<_, CompileError>(
                (seq![note_on(gap, key as u8), note_off(ticks, key as u8)], 0u32),
            )
        }),
{
    let event = SeqEventView::Single(note);
    lemma_notes_sound_together(event, time_signature, gap);
    let emitted = step(event, time_signature, gap)->Ok_0.0;
    let key = note_pitch(note.note_name, note.accidental, note.octave_number as int);
    let ticks = length_ticks(note.note_length, time_signature)->Ok_0;
    assert(event_pitches(event)[0] == key);
    assert(emitted[0] == note_on(gap, key as u8));
    assert(emitted[1int + 0] == note_off(ticks, key as u8));
    assert(emitted =~= seq![note_on(gap, key as u8), note_off(ticks, key as u8)]);
}

/// An event with a pitch that is no key has no events at all: the step
/// fails with the first such pitch, whatever else the event holds.
pub proof fn lemma_pitch_out_of_range_fails(
    event: SeqEventView,
    time_signature: TimeSignature,
    gap: u32,
)
    requires
        !all_in_range(event_pitches(event)),
    ensures
        step(event, time_signature, gap) == Err::<(Seq<TrackEvent>, u32), _>(
            CompileError::PitchRange(
                PitchRangeError {
                    pitch: event_pitches(event)[first_out_of_range(event_pitches(event))] as i64,
                },
            ),
        ),
{
    reveal(step);
}

/// A run of events with a failing event in it has no timeline: no event
/// before the failing one is handed out.
pub proof fn lemma_failure_leaves_no_timeline(
    events: Seq<SeqEventView>,
    time_signature: TimeSignature,
    gap: u32,
    i: int,
)
    requires
        0 <= i < events.len(),
        forall|before: u32| step(events[i], time_signature, before) is Err,
    ensures
        timeline(events, time_signature, gap) is Err,
    decreases i,
{
    if i > 0 {
        if let Ok((_, next)) = step(events[0], time_signature, gap) {
            let rest = events.drop_first();
            assert(rest[i - 1] == events[i]);
            lemma_failure_leaves_no_timeline(rest, time_signature, next, i - 1);
        }
    }
}

/// A tree whose first sequence holds an event with a pitch that is no key
/// has no track, wherever the event stands.
pub proof fn lemma_pitch_out_of_range_fails_compile(root: RootView, i: int)
    requires
        root.statements.len() > 0,
        0 <= i < root.statements[0]->Sequence_0.notes.len(),
        !all_in_range(event_pitches(root.statements[0]->Sequence_0.notes[i])),
    ensures
        compile(root) is Err,
{
    let sequence = root.statements[0]->Sequence_0;
    let time_signature = sequence_time_signature(sequence);
    assert forall|before: u32| step(sequence.notes[i], time_signature, before) is Err by {
        lemma_pitch_out_of_range_fails(sequence.notes[i], time_signature, before);
    }
    lemma_failure_leaves_no_timeline(sequence.notes, time_signature, 0, i);
}

/// Where the denominator names the quarter note, a bar has as many beats as
/// the numerator says: so many bars are so many beats, each of the ticks of
/// a beat.
pub proof fn lemma_bars_of_quarters(bars: u32, ticks_per_beat: int, time_signature: TimeSignature)
    requires
        time_signature.spec_denominator() == 4,
    ensures
        NoteLength::Bars(bars).spec_ticks(ticks_per_beat, time_signature) == bars
            * time_signature.spec_numerator() * ticks_per_beat,
{
    assert(ticks_per_beat * bars * time_signature.spec_numerator() == bars
        * time_signature.spec_numerator() * ticks_per_beat) by (nonlinear_arith);
}

/// True of an event that a MIDI file can hold as it is: the gap fits in 28
/// bits and the beat in 24, keys and velocities fit in 7 bits and the
/// channel in 4, and the time signature names a power of two.
pub open spec fn event_fits(event: TrackEvent) -> bool {
    &&& event.delta <= MAX_DELTA
    &&& match event.kind {
        TrackEventKind::Tempo(microseconds) => microseconds <= MAX_BEAT_MICROSECONDS,
        TrackEventKind::TimeSignature(_, exponent, _, _) => exponent <= 6,
        TrackEventKind::NoteOn { channel, key, vel } => channel <= 15 && key <= MAX_PITCH && vel
            <= 127,
        TrackEventKind::NoteOff { channel, key, vel } => channel <= 15 && key <= MAX_PITCH && vel
            <= 127,
        TrackEventKind::EndOfTrack => true,
    }
}

/// Every event that a sequence event adds fits, and is a note-on or a
/// note-off.
pub proof fn lemma_step_fits(event: SeqEventView, time_signature: TimeSignature, gap: u32)
    requires
        step(event, time_signature, gap) is Ok,
    ensures
        forall|i: int|
            0 <= i < step(event, time_signature, gap)->Ok_0.0.len() ==> {
                let emitted = #[trigger] step(event, time_signature, gap)->Ok_0.0[i];
                event_fits(emitted) && (emitted.kind is NoteOn || emitted.kind is NoteOff)
            },
{
    reveal(step);
    if event_pitches(event).len() > 0 {
        lemma_notes_sound_together(event, time_signature, gap);
        let emitted = step(event, time_signature, gap)->Ok_0.0;
        let count = event_pitches(event).len() as int;
        assert forall|i: int| 0 <= i < emitted.len() implies event_fits(#[trigger] emitted[i]) && (
        emitted[i].kind is NoteOn || emitted[i].kind is NoteOff) by {
            if i < count {
                assert(in_pitch_range(event_pitches(event)[i]));
            } else {
                assert(emitted[count + (i - count)] == emitted[i]);
                assert(in_pitch_range(event_pitches(event)[i - count]));
            }
        }
    } else {
        assert(step(event, time_signature, gap)->Ok_0.0.len() == 0);
    }
}

/// Every event of a timeline fits, and is a note-on or a note-off.
pub proof fn lemma_timeline_fits(
    events: Seq<SeqEventView>,
    time_signature: TimeSignature,
    gap: u32,
)
    requires
        timeline(events, time_signature, gap) is Ok,
    ensures
        forall|i: int|
            0 <= i < timeline(events, time_signature, gap)->Ok_0.len() ==> {
                let emitted = #[trigger] timeline(events, time_signature, gap)->Ok_0[i];
                event_fits(emitted) && (emitted.kind is NoteOn || emitted.kind is NoteOff)
            },
    decreases events.len(),
{
    if events.len() > 0 {
        let (first, next) = step(events[0], time_signature, gap)->Ok_0;
        let rest = timeline(events.drop_first(), time_signature, next)->Ok_0;
        lemma_step_fits(events[0], time_signature, gap);
        lemma_timeline_fits(events.drop_first(), time_signature, next);
        let all = timeline(events, time_signature, gap)->Ok_0;
        assert(all == first + rest);
        assert forall|i: int| 0 <= i < all.len() implies event_fits(#[trigger] all[i]) && (
        all[i].kind is NoteOn || all[i].kind is NoteOff) by {
            if i < first.len() {
                assert(all[i] == first[i]);
            } else {
                assert(all[i] == rest[i - first.len()]);
            }
        }
    }
}

/// A track starts with its tempo and its time signature, ends with the
/// end-of-track marker, holds nothing but note-on and note-off events
/// between them, and every event of it fits.
pub proof fn lemma_track_fits(root: RootView)
    requires
        compile(root) is Ok,
    ensures
        ({
            let track = compile(root)->Ok_0;
            &&& track.len() >= 3
            &&& track[0].kind is Tempo
            &&& track[1].kind is TimeSignature
            &&& track.last() == end_of_track()
            &&& forall|i: int| 0 <= i < track.len() ==> event_fits(#[trigger] track[i])
            &&& forall|i: int|
                2 <= i < track.len() - 1 ==> (#[trigger] track[i]).kind is NoteOn
                    || track[i].kind is NoteOff
        }),
{
    let sequence = root.statements[0]->Sequence_0;
    let time_signature = sequence_time_signature(sequence);
    let body = timeline(sequence.notes, time_signature, 0)->Ok_0;
    let track = compile(root)->Ok_0;
    lemma_timeline_fits(sequence.notes, time_signature, 0);
    assert forall|i: int| 2 <= i < track.len() - 1 implies event_fits(#[trigger] track[i]) && (
    track[i].kind is NoteOn || track[i].kind is NoteOff) by {
        assert(track[i] == body[i - 2]);
    }
}

proof fn lemma_timeline_unfold(
    events: Seq<SeqEventView>,
    time_signature: TimeSignature,
    i: int,
    gap: u32,
)
    requires
        0 <= i < events.len(),
    ensures
        timeline(events.skip(i), time_signature, gap) == (match step(
            events[i],
            time_signature,
            gap,
        ) {
            Err(error) => Err(error),
            Ok((emitted, next)) => prepend(
                emitted,
                timeline(events.skip(i + 1), time_signature, next),
            ),
        }),
{
    assert(events.skip(i).drop_first() =~= events.skip(i + 1));
}

proof fn lemma_prepend_twice(
    first: Seq<TrackEvent>,
    second: Seq<TrackEvent>,
    rest: Result<Seq<TrackEvent>, CompileError>,
)
    ensures
        prepend(first, prepend(second, rest)) == prepend(first + second, rest),
{
    if let Ok(more) = rest {
        assert(first + (second + more) =~= (first + second) + more);
    }
}

fn push_together(track: &mut Vec<TrackEvent>, keys: &Vec<u8>, delta: u32, sounding: bool)
    ensures
        final(track)@ == old(track)@ + together(keys@, delta, sounding),
{
    let mut i: usize = 0;
    while i < keys.len()
        invariant
            i <= keys.len(),
            track@ == old(track)@ + together(keys@, delta, sounding).subrange(0, i as int),
        decreases keys.len() - i,
    {
        let gap: u32 = if i == 0 {
            delta
        } else {
            0
        };
        let kind: TrackEventKind = if sounding {
            TrackEventKind::NoteOn { channel: CHANNEL, key: keys[i], vel: NOTE_ON_VELOCITY }
        } else {
            TrackEventKind::NoteOff { channel: CHANNEL, key: keys[i], vel: NOTE_OFF_VELOCITY }
        };
        track.push(TrackEvent { delta: gap, kind });
        i += 1;
        assert(track@ =~= old(track)@ + together(keys@, delta, sounding).subrange(0, i as int));
    }
    assert(together(keys@, delta, sounding).subrange(0, i as int) =~= together(
        keys@,
        delta,
        sounding,
    ));
}

/// The keys that an event sounds, in the order in which they are emitted, or
/// the error of the first pitch that has no key.
pub fn event_keys(event: &SeqEvent) -> (keys: Result<Vec<u8>, PitchRangeError>)
    ensures
        match resolve_keys(event_pitches(event@)) {
            Ok(expected) => keys matches Ok(found) && found@ == expected,
            Err(error) => keys matches Err(found) && found == error,
        },
{
    let ghost pitches = event_pitches(event@);
    match event {
        SeqEvent::Rest(_) => {
            let keys: Vec<u8> = Vec::new();
            assert(keys@ =~= pitches.map_values(|pitch: int| pitch as u8));
            Ok(keys)
        },
        SeqEvent::Single(note) => {
            match midi_note(note.note_name, note.accidental, note.octave_number) {
                Ok(key) => {
                    let mut keys: Vec<u8> = Vec::new();
                    keys.push(key);
                    assert(keys@ =~= pitches.map_values(|pitch: int| pitch as u8));
                    Ok(keys)
                },
                Err(error) => {
                    proof {
                        lemma_first_out_of_range(pitches, 0);
                    }
                    Err(error)
                },
            }
        },
        SeqEvent::ListChord(chord) => {
            let mut keys: Vec<u8> = Vec::new();
            let mut i: usize = 0;
            while i < chord.notes.len()
                invariant
                    i <= chord.notes.len(),
                    *event == SeqEvent::ListChord(*chord),
                    pitches == event_pitches(event@),
                    keys@.len() == i,
                    forall|j: int|
                        0 <= j < i ==> in_pitch_range(pitches[j]) && keys@[j] == pitches[j],
                decreases chord.notes.len() - i,
            {
                let note = &chord.notes[i];
                match midi_note(note.note_name, note.accidental, note.octave_number) {
                    Ok(key) => {
                        keys.push(key);
                    },
                    Err(error) => {
                        proof {
                            lemma_first_out_of_range(pitches, i as int);
                        }
                        return Err(error);
                    },
                }
                i += 1;
            }
            assert(all_in_range(pitches));
            assert(keys@ =~= pitches.map_values(|pitch: int| pitch as u8));
            Ok(keys)
        },
        SeqEvent::NamedChord(chord) => midi_named_chord(&chord.chord_name),
    }
}

/// The ticks of a duration at the timeline's resolution, or why it has none.
pub fn event_ticks(length: NoteLength, time_signature: TimeSignature) -> (ticks: Result<
    u32,
    CompileError,
>)
    ensures
        ticks == length_ticks(length, time_signature),
{
    match length.checked_ticks(TICKS_PER_BEAT, time_signature) {
        Some(ticks) => Ok(ticks),
        None => {
            let by_bars: bool = match length {
                NoteLength::Bars(_) => true,
                _ => false,
            };
            if by_bars && denominator_power(time_signature.denominator()).is_err() {
                Err(CompileError::UnsupportedDenominator)
            } else {
                Err(CompileError::TickOverflow)
            }
        },
    }
}

fn denominator_power(denominator: u8) -> (exponent: Result<u8, CompileError>)
    ensures
        exponent == denominator_exponent(denominator),
        exponent is Ok <==> supported_denominator(denominator as int),
{
    if denominator == 1 {
        Ok(0)
    } else if denominator == 2 {
        Ok(1)
    } else if denominator == 4 {
        Ok(2)
    } else if denominator == 8 {
        Ok(3)
    } else if denominator == 16 {
        Ok(4)
    } else if denominator == 32 {
        Ok(5)
    } else if denominator == 64 {
        Ok(6)
    } else {
        Err(CompileError::UnsupportedDenominator)
    }
}

/// Adds the events of one sequence event to a track.
pub fn emit_event(
    event: &SeqEvent,
    time_signature: TimeSignature,
    accumulator: &mut TickAccumulator,
    track: &mut Vec<TrackEvent>,
) -> (done: Result<(), CompileError>)
    ensures
        match step(event@, time_signature, old(accumulator).ticks) {
            Ok((emitted, next)) => done is Ok && final(track)@ == old(track)@ + emitted
                && final(accumulator).ticks == next,
            Err(error) => done == Err::<(), _>(error),
        },
{
    reveal(step);
    let keys: Vec<u8> = match event_keys(event) {
        Ok(keys) => keys,
        Err(error) => {
            return Err(CompileError::PitchRange(error));
        },
    };
    let length: NoteLength = match event {
        SeqEvent::Single(note) => note.note_length,
        SeqEvent::ListChord(chord) => chord.note_length,
        SeqEvent::NamedChord(chord) => chord.note_length,
        SeqEvent::Rest(length) => *length,
    };
    let ticks: u32 = match event_ticks(length, time_signature) {
        Ok(ticks) => ticks,
        Err(error) => {
            return Err(error);
        },
    };
    if keys.len() == 0 {
        let advanced = accumulator.advance(ticks);
        assert(track@ =~= old(track)@ + Seq::<TrackEvent>::empty());
        return advanced;
    }
    if ticks > MAX_DELTA {
        return Err(CompileError::TickOverflow);
    }
    let start: u32 = match accumulator.flush() {
        Ok(delta) => delta,
        Err(error) => {
            return Err(error);
        },
    };
    let advanced = accumulator.advance(ticks);
    let stop: u32 = match accumulator.flush() {
        Ok(delta) => delta,
        Err(error) => {
            return Err(error);
        },
    };
    push_together(track, &keys, start, true);
    push_together(track, &keys, stop, false);
    assert(track@ =~= old(track)@ + (together(keys@, start, true) + together(keys@, stop, false)));
    Ok(())
}

/// Adds the events of a run of sequence events to a track that has seen no
/// event of theirs yet.
fn emit_events(
    events: &Vec<SeqEvent>,
    time_signature: TimeSignature,
    track: &mut Vec<TrackEvent>,
) -> (done: Result<(), CompileError>)
    ensures
        match timeline(events@.map_values(|event: SeqEvent| event@), time_signature, 0) {
            Ok(emitted) => done is Ok && final(track)@ == old(track)@ + emitted,
            Err(error) => done == Err::<(), _>(error),
        },
{
    let ghost views = events@.map_values(|event: SeqEvent| event@);
    let ghost mut body = Seq::<TrackEvent>::empty();
    let mut accumulator = TickAccumulator::new();
    let mut i: usize = 0;
    assert(views.skip(0) =~= views);
    assert(track@ =~= old(track)@ + body);
    while i < events.len()
        invariant
            i <= events.len(),
            track@ == old(track)@ + body,
            views == events@.map_values(|event: SeqEvent| event@),
            timeline(views, time_signature, 0) == prepend(
                body,
                timeline(views.skip(i as int), time_signature, accumulator.ticks),
            ),
        decreases events.len() - i,
    {
        proof {
            lemma_timeline_unfold(views, time_signature, i as int, accumulator.ticks);
        }
        let ghost gap = accumulator.ticks;
        match emit_event(&events[i], time_signature, &mut accumulator, track) {
            Ok(()) => {},
            Err(error) => {
                return Err(error);
            },
        }
        proof {
            let emitted = step(views[i as int], time_signature, gap)->Ok_0.0;
            lemma_prepend_twice(
                body,
                emitted,
                timeline(views.skip(i + 1), time_signature, accumulator.ticks),
            );
            assert(old(track)@ + (body + emitted) =~= (old(track)@ + body) + emitted);
            body = body + emitted;
        }
        i += 1;
    }
    assert(body + Seq::<TrackEvent>::empty() =~= body);
    Ok(())
}

/// The timeline of a syntax tree, at `TICKS_PER_BEAT` ticks per beat.
pub fn ast_to_midi(ast: &Root) -> (compiled: Result<Timeline, CompileError>)
    ensures
        match compile(ast@) {
            Ok(events) => compiled matches Ok(found) && found.events@ == events
                && found.ticks_per_beat == TICKS_PER_BEAT,
            Err(error) => compiled matches Err(found) && found == error,
        },
{
    if ast.statements.len() == 0 {
        return Err(CompileError::NoSequence);
    }
    let sequence: &Sequence = match &ast.statements[0] {
        Statement::Sequence(sequence) => sequence,
    };
    let tempo: u32 = match sequence.tempo {
        Some(tempo) => tempo.tempo,
        None => DEFAULT_TEMPO,
    };
    if tempo == 0 {
        return Err(CompileError::TempoRange);
    }
    let microseconds: u32 = match u24_try_from(MICROSECONDS_PER_MINUTE / tempo) {
        Some(microseconds) => microseconds,
        None => {
            return Err(CompileError::TempoRange);
        },
    };
    let time_signature: TimeSignature = match sequence.time_signature {
        Some(time_signature) => time_signature,
        None => TimeSignature::new(4, 4),
    };
    let exponent: u8 = match denominator_power(time_signature.denominator()) {
        Ok(exponent) => exponent,
        Err(error) => {
            return Err(error);
        },
    };
    let mut track: Vec<TrackEvent> = Vec::new();
    track.push(TrackEvent { delta: 0, kind: TrackEventKind::Tempo(microseconds) });
    track.push(
        TrackEvent {
            delta: 0,
            kind: TrackEventKind::TimeSignature(
                time_signature.numerator(),
                exponent,
                CLOCKS_PER_CLICK,
                THIRTY_SECONDS_PER_QUARTER,
            ),
        },
    );
    assert(track@ =~= seq![
        tempo_event(microseconds),
        time_signature_event(time_signature.spec_numerator(), exponent),
    ]);
    match emit_events(&sequence.notes, time_signature, &mut track) {
        Ok(()) => {},
        Err(error) => {
            return Err(error);
        },
    }
    track.push(TrackEvent { delta: 0, kind: TrackEventKind::EndOfTrack });
    Ok(Timeline { ticks_per_beat: TICKS_PER_BEAT, events: track })
}

} // verus!
