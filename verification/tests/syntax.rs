use std::str::FromStr;

use callisto_interpreter::syntax::Accidental;
use callisto_interpreter::syntax::ChordExtension;
use callisto_interpreter::syntax::ChordQuality;
use callisto_interpreter::syntax::ListChord;
use callisto_interpreter::syntax::NoteLength;
use callisto_interpreter::syntax::NoteName;
use callisto_interpreter::syntax::Root;
use callisto_interpreter::syntax::Sequence;
use callisto_interpreter::syntax::TimeSignature;

#[test]
fn time_signature_keeps_its_parts() {
    let time_signature = TimeSignature::new(6, 8);
    assert_eq!(time_signature.numerator(), 6);
    assert_eq!(time_signature.denominator(), 8);
    assert_eq!(TimeSignature::default(), TimeSignature::new(4, 4));
}

#[test]
fn a_beat_is_the_note_that_the_denominator_names() {
    assert_eq!(TimeSignature::new(4, 4).ticks_per_beat(96), 96);
    assert_eq!(TimeSignature::new(3, 4).ticks_per_beat(96), 96);
    assert_eq!(TimeSignature::new(6, 8).ticks_per_beat(96), 48);
    assert_eq!(TimeSignature::new(2, 1).ticks_per_beat(96), 384);
    assert_eq!(TimeSignature::new(2, 2).ticks_per_beat(96), 192);
    assert_eq!(TimeSignature::new(2, 16).ticks_per_beat(96), 24);
    assert_eq!(TimeSignature::new(2, 32).ticks_per_beat(96), 12);
    assert_eq!(TimeSignature::new(2, 64).ticks_per_beat(96), 6);
    assert_eq!(TimeSignature::new(2, 64).ticks_per_beat(100), 6);
    assert_eq!(TimeSignature::new(1, 4).ticks_per_beat(u32::MAX), u32::MAX);
    assert_eq!(TimeSignature::new(1, 1).ticks_per_beat(1073741823), 4294967292);
}

#[test]
fn a_measure_is_as_many_beats_as_the_numerator_says() {
    assert_eq!(TimeSignature::new(4, 4).ticks_per_measure(96), 384);
    assert_eq!(TimeSignature::new(3, 4).ticks_per_measure(96), 288);
    assert_eq!(TimeSignature::new(6, 8).ticks_per_measure(96), 288);
    assert_eq!(TimeSignature::new(2, 2).ticks_per_measure(96), 384);
    assert_eq!(TimeSignature::new(255, 64).ticks_per_measure(96), 1530);
    assert_eq!(TimeSignature::new(255, 4).ticks_per_measure(16843009), 4294967295);
    for (numerator, denominator) in [(3, 4), (6, 8), (5, 16), (7, 1), (12, 64)] {
        let time_signature = TimeSignature::new(numerator, denominator);
        assert_eq!(
            time_signature.ticks_per_measure(96),
            NoteLength::Bars(1).ticks(96, time_signature)
        );
        assert_eq!(
            time_signature.ticks_per_measure(96),
            numerator as u32 * time_signature.ticks_per_beat(96)
        );
    }
}

#[test]
fn fractions_scale_the_ticks_of_a_beat() {
    let common = TimeSignature::default();
    assert_eq!(NoteLength::SixtyFourth.ticks(96, common), 6);
    assert_eq!(NoteLength::ThirtySecond.ticks(96, common), 12);
    assert_eq!(NoteLength::Sixteenth.ticks(96, common), 24);
    assert_eq!(NoteLength::Eighth.ticks(96, common), 48);
    assert_eq!(NoteLength::Quarter.ticks(96, common), 96);
    assert_eq!(NoteLength::Half.ticks(96, common), 192);
    assert_eq!(NoteLength::Whole.ticks(96, common), 384);
    assert_eq!(NoteLength::SixtyFourth.ticks(100, common), 6);
    assert_eq!(NoteLength::Eighth.ticks(0, common), 0);
}

#[test]
fn bars_are_numerator_times_denominator_note() {
    assert_eq!(NoteLength::Bars(1).ticks(96, TimeSignature::new(4, 1)), 1536);
    assert_eq!(NoteLength::Bars(1).ticks(96, TimeSignature::new(4, 2)), 768);
    assert_eq!(NoteLength::Bars(1).ticks(96, TimeSignature::new(4, 4)), 384);
    assert_eq!(NoteLength::Bars(1).ticks(96, TimeSignature::new(4, 8)), 192);
    assert_eq!(NoteLength::Bars(1).ticks(96, TimeSignature::new(4, 16)), 96);
    assert_eq!(NoteLength::Bars(1).ticks(96, TimeSignature::new(4, 32)), 48);
    assert_eq!(NoteLength::Bars(1).ticks(96, TimeSignature::new(4, 64)), 24);
    assert_eq!(NoteLength::Bars(3).ticks(96, TimeSignature::new(3, 4)), 864);
    assert_eq!(NoteLength::Bars(0).ticks(96, TimeSignature::new(3, 4)), 0);
}

#[test]
fn checked_ticks_refuse_what_does_not_fit() {
    let common = TimeSignature::default();
    assert_eq!(NoteLength::Bars(1).checked_ticks(96, common), Some(384));
    assert_eq!(NoteLength::Bars(11184810).checked_ticks(96, common), Some(4294967040));
    assert_eq!(NoteLength::Bars(11184811).checked_ticks(96, common), None);
    assert_eq!(NoteLength::Whole.checked_ticks(1 << 30, common), None);
    assert_eq!(NoteLength::Half.checked_ticks(1 << 30, common), Some(1 << 31));
    assert_eq!(NoteLength::Bars(0).checked_ticks(u32::MAX, TimeSignature::new(255, 1)), Some(0));
    assert_eq!(NoteLength::Bars(1).checked_ticks(96, TimeSignature::new(4, 5)), None);
    assert_eq!(NoteLength::Quarter.checked_ticks(96, TimeSignature::new(4, 5)), Some(96));
}

#[test]
fn accidentals_are_read_from_their_markers() {
    assert_eq!(Accidental::from_string("#"), Some(Accidental::Sharp));
    assert_eq!(Accidental::from_string("b"), Some(Accidental::Flat));
    assert_eq!(Accidental::from_string("n"), Some(Accidental::Natural));
    assert_eq!(Accidental::from_string(""), None);
    assert_eq!(Accidental::from_string("##"), None);
    assert_eq!(Accidental::from_string("B"), None);
}

#[test]
fn note_names_are_upper_case_letters() {
    assert_eq!(NoteName::from_str("A"), Ok(NoteName::A));
    assert_eq!(NoteName::from_str("B"), Ok(NoteName::B));
    assert_eq!(NoteName::from_str("C"), Ok(NoteName::C));
    assert_eq!(NoteName::from_str("D"), Ok(NoteName::D));
    assert_eq!(NoteName::from_str("E"), Ok(NoteName::E));
    assert_eq!(NoteName::from_str("F"), Ok(NoteName::F));
    assert_eq!(NoteName::from_str("G"), Ok(NoteName::G));
    assert_eq!(NoteName::from_str("H"), Err(()));
    assert_eq!(NoteName::from_str("a"), Err(()));
    assert_eq!(NoteName::from_str("AB"), Err(()));
    assert_eq!(NoteName::from_bytes(b"G"), Some(NoteName::G));
    assert_eq!(NoteName::from_bytes(b""), None);
}

#[test]
fn qualities_and_extensions_are_read_from_their_keywords() {
    assert_eq!(ChordQuality::from_str("maj"), Ok(ChordQuality::Major));
    assert_eq!(ChordQuality::from_str("min"), Ok(ChordQuality::Minor));
    assert_eq!(ChordQuality::from_str("dim"), Ok(ChordQuality::Diminished));
    assert_eq!(ChordQuality::from_str("aug"), Ok(ChordQuality::Augmented));
    assert_eq!(ChordQuality::from_str("sus"), Err(()));
    assert_eq!(ChordQuality::from_str("majo"), Err(()));
    assert_eq!(ChordExtension::from_str("add6"), Ok(ChordExtension::Sixth));
    assert_eq!(ChordExtension::from_str("add9"), Ok(ChordExtension::Ninth));
    assert_eq!(ChordExtension::from_str("add11"), Ok(ChordExtension::Eleventh));
    assert_eq!(ChordExtension::from_str("add13"), Ok(ChordExtension::Thirteenth));
    assert_eq!(ChordExtension::from_str("add7"), Err(()));
    assert_eq!(ChordExtension::from_str("add12"), Err(()));
    assert_eq!(ChordExtension::from_str("7"), Err(()));
    assert_eq!(ChordExtension::from_str("add"), Err(()));
}

#[test]
fn note_lengths_are_read_from_their_numbers() {
    assert_eq!(NoteLength::from_str("64"), Ok(NoteLength::SixtyFourth));
    assert_eq!(NoteLength::from_str("32"), Ok(NoteLength::ThirtySecond));
    assert_eq!(NoteLength::from_str("16"), Ok(NoteLength::Sixteenth));
    assert_eq!(NoteLength::from_str("8"), Ok(NoteLength::Eighth));
    assert_eq!(NoteLength::from_str("4"), Ok(NoteLength::Quarter));
    assert_eq!(NoteLength::from_str("2"), Ok(NoteLength::Half));
    assert_eq!(NoteLength::from_str("1"), Ok(NoteLength::Whole));
    assert_eq!(NoteLength::from_str("3"), Err(()));
    assert_eq!(NoteLength::from_str("128"), Err(()));
    assert_eq!(NoteLength::from_str(""), Err(()));
}

#[test]
fn defaults_are_empty() {
    assert_eq!(Root::default(), Root { statements: vec![] });
    assert_eq!(
        Sequence::default(),
        Sequence {
            tempo: None,
            time_signature: None,
            notes: vec![],
        }
    );
    assert_eq!(
        ListChord::default(),
        ListChord {
            notes: vec![],
            note_length: NoteLength::Whole,
        }
    );
    assert_eq!(NoteLength::default(), NoteLength::Whole);
}
