use callisto_interpreter::midi::ast_to_midi;
use callisto_interpreter::midi::emit_event;
use callisto_interpreter::midi::event_keys;
use callisto_interpreter::midi::event_ticks;
use callisto_interpreter::midi::midi_named_chord;
use callisto_interpreter::midi::midi_note;
use callisto_interpreter::midi::CompileError;
use callisto_interpreter::midi::PitchRangeError;
use callisto_interpreter::midi::TickAccumulator;
use callisto_interpreter::midi::Timeline;
use callisto_interpreter::midi::TrackEvent;
use callisto_interpreter::midi::TrackEventKind;
use callisto_interpreter::midi::MAX_DELTA;
use callisto_interpreter::midi::TICKS_PER_BEAT;
use callisto_interpreter::parser::parse;
use callisto_interpreter::syntax::Accidental;
use callisto_interpreter::syntax::ChordExtension;
use callisto_interpreter::syntax::ChordName;
use callisto_interpreter::syntax::ChordQuality;
use callisto_interpreter::syntax::NoteLength;
use callisto_interpreter::syntax::NoteName;
use callisto_interpreter::syntax::Root;
use callisto_interpreter::syntax::SeqEvent;
use callisto_interpreter::syntax::Sequence;
use callisto_interpreter::syntax::Statement;
use callisto_interpreter::syntax::Tempo;
use callisto_interpreter::syntax::TimeSignature;

fn compile(text: &str) -> Result<Timeline, CompileError> {
    ast_to_midi(&parse(text).unwrap())
}

fn on(delta: u32, key: u8) -> TrackEvent {
    TrackEvent {
        delta,
        kind: TrackEventKind::NoteOn { channel: 0, key, vel: 127 },
    }
}

fn off(delta: u32, key: u8) -> TrackEvent {
    TrackEvent {
        delta,
        kind: TrackEventKind::NoteOff { channel: 0, key, vel: 0 },
    }
}

fn meta(kind: TrackEventKind) -> TrackEvent {
    TrackEvent { delta: 0, kind }
}

/// The events between the two leading meta events and the end of track.
fn body(timeline: &Timeline) -> Vec<TrackEvent> {
    let events = &timeline.events;
    assert!(events.len() >= 3);
    assert_eq!(events[events.len() - 1], meta(TrackEventKind::EndOfTrack));
    events[2..events.len() - 1].to_vec()
}

fn chord(root: NoteName, octave: i32, quality: ChordQuality, extensions: Vec<ChordExtension>) -> ChordName {
    ChordName {
        root,
        root_accidental: Accidental::Natural,
        root_octave_number: octave,
        quality,
        extensions,
    }
}

#[test]
fn test_midi() {
    let input = r"
{ 
    tempo 120
    time 4 4
    \E4min7|1
    z|1
    \C4majadd9|1
}";

    let ast = parse(input);
    let ast = match ast {
        Ok(ast) => ast,
        Err(e) => panic!("Error parsing: {:?}", e),
    };
    let midi = ast_to_midi(&ast).unwrap();
    assert_eq!(midi.ticks_per_beat, 96);
    assert_eq!(
        body(&midi),
        vec![
            on(0, 76),
            on(0, 79),
            on(0, 83),
            on(0, 86),
            off(384, 76),
            off(0, 79),
            off(0, 83),
            off(0, 86),
            on(384, 72),
            on(0, 76),
            on(0, 79),
            on(0, 86),
            off(384, 72),
            off(0, 76),
            off(0, 79),
            off(0, 86),
        ]
    );
}

#[test]
fn octave_offset_of_two_puts_c3_at_pitch_60() {
    assert_eq!(midi_note(NoteName::C, Accidental::Natural, 3), Ok(60));
    assert_eq!(midi_note(NoteName::C, Accidental::Natural, 4), Ok(72));
    assert_eq!(midi_note(NoteName::A, Accidental::Natural, 3), Ok(69));
    assert_eq!(midi_note(NoteName::C, Accidental::Natural, -2), Ok(0));
    assert_eq!(midi_note(NoteName::G, Accidental::Natural, 8), Ok(127));
}

#[test]
fn every_letter_has_its_semitone() {
    let letters = [
        (NoteName::C, 0),
        (NoteName::D, 2),
        (NoteName::E, 4),
        (NoteName::F, 5),
        (NoteName::G, 7),
        (NoteName::A, 9),
        (NoteName::B, 11),
    ];
    for (name, semitone) in letters {
        assert_eq!(midi_note(name, Accidental::Natural, -2), Ok(semitone));
    }
}

#[test]
fn sharp_and_flat_move_a_note_by_one_semitone() {
    let names = [
        NoteName::A,
        NoteName::B,
        NoteName::C,
        NoteName::D,
        NoteName::E,
        NoteName::F,
        NoteName::G,
    ];
    for name in names {
        for octave in -1..8 {
            let natural = midi_note(name, Accidental::Natural, octave).unwrap();
            assert_eq!(midi_note(name, Accidental::Sharp, octave), Ok(natural + 1));
            assert_eq!(midi_note(name, Accidental::Flat, octave), Ok(natural - 1));
        }
    }
}

#[test]
fn pitch_out_of_range_is_refused_with_its_value() {
    assert_eq!(
        midi_note(NoteName::C, Accidental::Flat, -2),
        Err(PitchRangeError { pitch: -1 })
    );
    assert_eq!(
        midi_note(NoteName::G, Accidental::Sharp, 8),
        Err(PitchRangeError { pitch: 128 })
    );
    assert_eq!(
        midi_note(NoteName::C, Accidental::Natural, i32::MAX),
        Err(PitchRangeError { pitch: (i32::MAX as i64 + 2) * 12 })
    );
    assert_eq!(
        midi_note(NoteName::C, Accidental::Natural, i32::MIN),
        Err(PitchRangeError { pitch: (i32::MIN as i64 + 2) * 12 })
    );
}

#[test]
fn single_note_is_one_on_off_pair() {
    let timeline = compile("{ C3:4 }").unwrap();
    assert_eq!(body(&timeline), vec![on(0, 60), off(96, 60)]);
    let timeline = compile("{ C4:4 }").unwrap();
    assert_eq!(body(&timeline), vec![on(0, 72), off(TICKS_PER_BEAT, 72)]);
}

#[test]
fn timeline_starts_with_tempo_and_time_signature_and_ends_with_end_of_track() {
    let timeline = compile("{ C3:4 }").unwrap();
    assert_eq!(timeline.ticks_per_beat, 96);
    assert_eq!(timeline.events.len(), 5);
    assert_eq!(timeline.events[0], meta(TrackEventKind::Tempo(500_000)));
    assert_eq!(
        timeline.events[1],
        meta(TrackEventKind::TimeSignature(4, 2, 36, 8))
    );
    assert_eq!(timeline.events[4], meta(TrackEventKind::EndOfTrack));
    let timeline = compile("{ tempo 90 time 6 8 }").unwrap();
    assert_eq!(
        timeline.events,
        vec![
            meta(TrackEventKind::Tempo(666_666)),
            meta(TrackEventKind::TimeSignature(6, 3, 36, 8)),
            meta(TrackEventKind::EndOfTrack),
        ]
    );
}

#[test]
fn denominator_is_written_as_a_power_of_two() {
    for (denominator, exponent) in [(1, 0), (2, 1), (4, 2), (8, 3), (16, 4), (32, 5), (64, 6)] {
        let timeline = compile(&format!("{{ time 3 {} }}", denominator)).unwrap();
        assert_eq!(
            timeline.events[1],
            meta(TrackEventKind::TimeSignature(3, exponent, 36, 8))
        );
    }
}

#[test]
fn chord_notes_start_together_and_stop_together() {
    let timeline = compile("{ [C3 E3 G3]:4 }").unwrap();
    assert_eq!(
        body(&timeline),
        vec![
            on(0, 60),
            on(0, 64),
            on(0, 67),
            off(96, 60),
            off(0, 64),
            off(0, 67),
        ]
    );
    let timeline = compile("{ z:2 [G3 C3]:8 }").unwrap();
    assert_eq!(
        body(&timeline),
        vec![on(192, 67), on(0, 60), off(48, 67), off(0, 60)]
    );
}

#[test]
fn major_seventh_chord_is_root_third_fifth_seventh() {
    let name = chord(NoteName::C, 3, ChordQuality::Major, vec![ChordExtension::Seventh]);
    assert_eq!(midi_named_chord(&name), Ok(vec![60, 64, 67, 71]));
    let name = chord(NoteName::C, 4, ChordQuality::Major, vec![ChordExtension::Seventh]);
    assert_eq!(midi_named_chord(&name), Ok(vec![72, 76, 79, 83]));
    let timeline = compile(r"{ \C3maj7:4 }").unwrap();
    assert_eq!(
        body(&timeline),
        vec![
            on(0, 60),
            on(0, 64),
            on(0, 67),
            on(0, 71),
            off(96, 60),
            off(0, 64),
            off(0, 67),
            off(0, 71),
        ]
    );
}

#[test]
fn extensions_are_a_set() {
    let twice = chord(
        NoteName::C,
        3,
        ChordQuality::Major,
        vec![
            ChordExtension::Seventh,
            ChordExtension::Ninth,
            ChordExtension::Seventh,
            ChordExtension::Ninth,
        ],
    );
    let reversed = chord(
        NoteName::C,
        3,
        ChordQuality::Major,
        vec![ChordExtension::Ninth, ChordExtension::Seventh],
    );
    assert_eq!(midi_named_chord(&twice), Ok(vec![60, 64, 67, 71, 74]));
    assert_eq!(midi_named_chord(&reversed), midi_named_chord(&twice));
}

#[test]
fn every_quality_and_extension_has_its_interval() {
    let all = vec![
        ChordExtension::Thirteenth,
        ChordExtension::Eleventh,
        ChordExtension::Ninth,
        ChordExtension::Seventh,
        ChordExtension::Sixth,
    ];
    let tones = |quality| midi_named_chord(&chord(NoteName::C, -2, quality, all.clone()));
    assert_eq!(tones(ChordQuality::Major), Ok(vec![0, 4, 7, 9, 11, 14, 17, 21]));
    assert_eq!(tones(ChordQuality::Minor), Ok(vec![0, 3, 7, 8, 10, 14, 17, 20]));
    assert_eq!(tones(ChordQuality::Diminished), Ok(vec![0, 3, 6, 8, 10, 14, 17, 20]));
    assert_eq!(tones(ChordQuality::Augmented), Ok(vec![0, 4, 7, 9, 11, 14, 17, 21]));
    let triad = |quality| midi_named_chord(&chord(NoteName::C, -2, quality, vec![]));
    assert_eq!(triad(ChordQuality::Minor), Ok(vec![0, 3, 7]));
}

#[test]
fn chord_tone_above_the_highest_key_is_refused() {
    // The fifth of G8 would be pitch 134.
    let name = chord(NoteName::G, 8, ChordQuality::Major, vec![]);
    assert_eq!(midi_named_chord(&name), Err(PitchRangeError { pitch: 131 }));
    let name = chord(NoteName::C, 8, ChordQuality::Major, vec![ChordExtension::Ninth]);
    assert_eq!(midi_named_chord(&name), Err(PitchRangeError { pitch: 134 }));
    let name = chord(NoteName::C, 8, ChordQuality::Major, vec![]);
    assert_eq!(midi_named_chord(&name), Ok(vec![120, 124, 127]));
    let name = chord(NoteName::C, 9, ChordQuality::Major, vec![]);
    assert_eq!(midi_named_chord(&name), Err(PitchRangeError { pitch: 132 }));
    assert_eq!(
        compile(r"{ C3:4 \G8maj:4 }"),
        Err(CompileError::PitchRange(PitchRangeError { pitch: 131 }))
    );
}

#[test]
fn pitch_out_of_range_fails_the_whole_compilation() {
    assert_eq!(
        compile("{ C3:4 G#8:4 }"),
        Err(CompileError::PitchRange(PitchRangeError { pitch: 128 }))
    );
    assert_eq!(
        compile("{ [C3 C9 C10]:4 }"),
        Err(CompileError::PitchRange(PitchRangeError { pitch: 132 }))
    );
    assert_eq!(
        compile("{ C178956969:4 }"),
        Err(CompileError::PitchRange(PitchRangeError { pitch: 178956971 * 12 }))
    );
}

#[test]
fn bars_follow_the_time_signature() {
    let three_four = TimeSignature::new(3, 4);
    assert_eq!(NoteLength::Bars(1).ticks(96, three_four), 288);
    assert_eq!(NoteLength::Bars(2).ticks(96, TimeSignature::new(6, 8)), 576);
    assert_eq!(NoteLength::Bars(1).ticks(96, TimeSignature::default()), 384);
    let timeline = compile("{ time 3 4 C3|1 }").unwrap();
    assert_eq!(body(&timeline), vec![on(0, 60), off(288, 60)]);
    // The time signature holds for the whole sequence, wherever it stands.
    let timeline = compile("{ C3|1 time 3 4 }").unwrap();
    assert_eq!(body(&timeline), vec![on(0, 60), off(288, 60)]);
}

#[test]
fn rests_pass_time_without_events() {
    let timeline = compile("{ z|1 C3:4 }").unwrap();
    assert_eq!(body(&timeline), vec![on(384, 60), off(96, 60)]);
    let timeline = compile("{ z:4 z:8 C3:4 z:2 D3:4 z|1 }").unwrap();
    assert_eq!(
        body(&timeline),
        vec![on(144, 60), off(96, 60), on(192, 62), off(96, 62)]
    );
    let timeline = compile("{ z|1 z:1 }").unwrap();
    assert_eq!(body(&timeline), vec![]);
}

#[test]
fn empty_chord_passes_its_duration() {
    let timeline = compile("{ []:4 C3:4 }").unwrap();
    assert_eq!(body(&timeline), vec![on(96, 60), off(96, 60)]);
}

#[test]
fn tree_without_sequence_has_no_timeline() {
    assert_eq!(compile(""), Err(CompileError::NoSequence));
    assert_eq!(
        ast_to_midi(&Root { statements: vec![] }),
        Err(CompileError::NoSequence)
    );
}

#[test]
fn only_the_first_sequence_is_compiled() {
    let timeline = compile("{ C3:4 } { D3:4 }").unwrap();
    assert_eq!(body(&timeline), vec![on(0, 60), off(96, 60)]);
}

#[test]
fn tempo_must_fit_in_a_tempo_event() {
    assert_eq!(compile("{ tempo 0 }"), Err(CompileError::TempoRange));
    assert_eq!(compile("{ tempo 3 }"), Err(CompileError::TempoRange));
    let timeline = compile("{ tempo 4 }").unwrap();
    assert_eq!(timeline.events[0], meta(TrackEventKind::Tempo(15_000_000)));
    let timeline = compile("{ tempo 4294967295 }").unwrap();
    assert_eq!(timeline.events[0], meta(TrackEventKind::Tempo(0)));
    let timeline = compile("{ tempo 7 }").unwrap();
    assert_eq!(timeline.events[0], meta(TrackEventKind::Tempo(8_571_428)));
}

#[test]
fn denominator_must_name_a_note_length() {
    assert_eq!(compile("{ time 4 3 C3:4 }"), Err(CompileError::UnsupportedDenominator));
    assert_eq!(compile("{ time 4 128 }"), Err(CompileError::UnsupportedDenominator));
    assert_eq!(
        event_ticks(NoteLength::Bars(1), TimeSignature::new(4, 3)),
        Err(CompileError::UnsupportedDenominator)
    );
    assert_eq!(event_ticks(NoteLength::Quarter, TimeSignature::new(4, 3)), Ok(96));
    assert_eq!(NoteLength::Bars(1).checked_ticks(96, TimeSignature::new(4, 3)), None);
}

#[test]
fn gap_that_no_event_can_carry_is_refused() {
    // 700000 bars of 384 ticks are more than 28 bits hold.
    assert_eq!(compile("{ z|700000 C3:4 }"), Err(CompileError::TickOverflow));
    assert_eq!(compile("{ C3|700000 }"), Err(CompileError::TickOverflow));
    // 699050 bars are 268435200 ticks, which an event can carry.
    let timeline = compile("{ z|699050 C3:4 }").unwrap();
    assert_eq!(body(&timeline), vec![on(268435200, 60), off(96, 60)]);
    assert_eq!(
        body(&compile("{ z|699050 z:2 z:8 z:32 C3:4 }").unwrap()),
        vec![on(MAX_DELTA - 3, 60), off(96, 60)]
    );
    assert_eq!(
        compile("{ z|699050 z:2 z:8 z:32 z:64 C3:4 }"),
        Err(CompileError::TickOverflow)
    );
    // A rest at the end carries no gap to any event.
    assert!(compile("{ C3:4 z|700000 }").is_ok());
    assert_eq!(compile("{ z|4294967295 }"), Err(CompileError::TickOverflow));
    assert_eq!(
        compile("{ z|11184810 z|1 }"),
        Err(CompileError::TickOverflow)
    );
}

#[test]
fn accumulator_advances_and_flushes() {
    let mut accumulator = TickAccumulator::new();
    assert_eq!(accumulator.ticks, 0);
    assert_eq!(accumulator.advance(96), Ok(()));
    assert_eq!(accumulator.advance(48), Ok(()));
    assert_eq!(accumulator.ticks, 144);
    assert_eq!(accumulator.flush(), Ok(144));
    assert_eq!(accumulator.ticks, 0);
    assert_eq!(accumulator.flush(), Ok(0));
    assert_eq!(accumulator.advance(MAX_DELTA), Ok(()));
    assert_eq!(accumulator.flush(), Ok(MAX_DELTA));
    assert_eq!(accumulator.advance(MAX_DELTA + 1), Ok(()));
    assert_eq!(accumulator.flush(), Err(CompileError::TickOverflow));
    assert_eq!(accumulator.ticks, MAX_DELTA + 1);
    assert_eq!(accumulator.advance(u32::MAX), Err(CompileError::TickOverflow));
    assert_eq!(accumulator.ticks, MAX_DELTA + 1);
}

#[test]
fn one_event_adds_its_notes_to_a_track() {
    let event = match &parse("{ [C3 E3]:2 }").unwrap().statements[0] {
        Statement::Sequence(sequence) => sequence.notes[0].clone(),
    };
    assert_eq!(event_keys(&event), Ok(vec![60, 64]));
    assert_eq!(event_keys(&SeqEvent::Rest(NoteLength::Whole)), Ok(vec![]));
    let mut accumulator = TickAccumulator { ticks: 10 };
    let mut track = vec![meta(TrackEventKind::EndOfTrack)];
    assert_eq!(
        emit_event(&event, TimeSignature::default(), &mut accumulator, &mut track),
        Ok(())
    );
    assert_eq!(accumulator.ticks, 0);
    assert_eq!(
        track,
        vec![
            meta(TrackEventKind::EndOfTrack),
            on(10, 60),
            on(0, 64),
            off(192, 60),
            off(0, 64),
        ]
    );
    assert_eq!(
        emit_event(
            &SeqEvent::Rest(NoteLength::Half),
            TimeSignature::default(),
            &mut accumulator,
            &mut track
        ),
        Ok(())
    );
    assert_eq!(accumulator.ticks, 192);
    assert_eq!(track.len(), 5);
}

#[test]
fn tree_built_by_hand_compiles_like_a_parsed_one() {
    let by_hand = Root {
        statements: vec![Statement::Sequence(Sequence {
            tempo: Some(Tempo { tempo: 60 }),
            time_signature: Some(TimeSignature::new(3, 4)),
            notes: vec![SeqEvent::Rest(NoteLength::Bars(1))],
        })],
    };
    assert_eq!(
        ast_to_midi(&by_hand),
        compile("{ tempo 60 time 3 4 z|1 }")
    );
    assert_eq!(
        ast_to_midi(&by_hand).unwrap().events[0],
        meta(TrackEventKind::Tempo(1_000_000))
    );
}
