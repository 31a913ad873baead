use callisto_interpreter::parser::parse;
use callisto_interpreter::parser::ParsingError;
use callisto_interpreter::syntax::Accidental;
use callisto_interpreter::syntax::ChordExtension;
use callisto_interpreter::syntax::ChordName;
use callisto_interpreter::syntax::ChordNote;
use callisto_interpreter::syntax::ChordQuality;
use callisto_interpreter::syntax::ListChord;
use callisto_interpreter::syntax::NamedChord;
use callisto_interpreter::syntax::NoteLength;
use callisto_interpreter::syntax::NoteName;
use callisto_interpreter::syntax::Root;
use callisto_interpreter::syntax::SeqEvent;
use callisto_interpreter::syntax::Sequence;
use callisto_interpreter::syntax::SingleNote;
use callisto_interpreter::syntax::Statement;
use callisto_interpreter::syntax::Tempo;
use callisto_interpreter::syntax::TimeSignature;
use callisto_interpreter::syntax::Token;

fn note(name: NoteName, accidental: Accidental, octave: i32, length: NoteLength) -> SeqEvent {
    SeqEvent::Single(SingleNote {
        note_name: name,
        octave_number: octave,
        note_length: length,
        accidental,
    })
}

fn one_sequence(sequence: Sequence) -> Root {
    Root {
        statements: vec![Statement::Sequence(sequence)],
    }
}

#[test]
fn test_parse_one_bar() {
    let ast = parse("{ Bb4:4 D4:8 D4:8 E4:2 }");
    if let Err(e) = ast {
        panic!("{:?}", e);
    }
}

#[test]
fn test_parse_chord() {
    let ast = parse("{ [Bb4 Eb4]:2 }");
    if let Err(e) = ast {
        panic!("{:?}", e);
    }
}

#[test]
fn test_parse_bar_note_length() {
    let ast = parse("{ Bb4|1 D4|2 D4|1 E4|4 }");
    if let Err(e) = ast {
        panic!("{:?}", e);
    }
}

#[test]
fn test_parse_named_chord() {
    let ast = parse(r"{ \E4min7:4 \C4majadd9:8 }");
    if let Err(e) = ast {
        panic!("{:?}", e);
    }
}

#[test]
fn one_bar_has_the_notes_as_written() {
    let ast = parse("{ Bb4:4 D4:8 D4:8 E4:2 }").unwrap();
    let expected = one_sequence(Sequence {
        tempo: None,
        time_signature: None,
        notes: vec![
            note(NoteName::B, Accidental::Flat, 4, NoteLength::Quarter),
            note(NoteName::D, Accidental::Natural, 4, NoteLength::Eighth),
            note(NoteName::D, Accidental::Natural, 4, NoteLength::Eighth),
            note(NoteName::E, Accidental::Natural, 4, NoteLength::Half),
        ],
    });
    assert_eq!(ast, expected);
}

#[test]
fn every_fraction_has_its_number() {
    let ast = parse("{ C4:1 C4:2 C4:4 C4:8 C4:16 C4:32 C4:64 C#4|3 }").unwrap();
    let lengths = vec![
        NoteLength::Whole,
        NoteLength::Half,
        NoteLength::Quarter,
        NoteLength::Eighth,
        NoteLength::Sixteenth,
        NoteLength::ThirtySecond,
        NoteLength::SixtyFourth,
    ];
    let mut notes: Vec<SeqEvent> = lengths
        .into_iter()
        .map(|length| note(NoteName::C, Accidental::Natural, 4, length))
        .collect();
    notes.push(note(NoteName::C, Accidental::Sharp, 4, NoteLength::Bars(3)));
    assert_eq!(
        ast,
        one_sequence(Sequence {
            tempo: None,
            time_signature: None,
            notes,
        })
    );
}

#[test]
fn list_chord_keeps_the_order_of_its_notes() {
    let ast = parse("{ [Bb4 Eb4]:2 []|1 }").unwrap();
    let expected = one_sequence(Sequence {
        tempo: None,
        time_signature: None,
        notes: vec![
            SeqEvent::ListChord(ListChord {
                notes: vec![
                    ChordNote {
                        note_name: NoteName::B,
                        octave_number: 4,
                        accidental: Accidental::Flat,
                    },
                    ChordNote {
                        note_name: NoteName::E,
                        octave_number: 4,
                        accidental: Accidental::Flat,
                    },
                ],
                note_length: NoteLength::Half,
            }),
            SeqEvent::ListChord(ListChord {
                notes: vec![],
                note_length: NoteLength::Bars(1),
            }),
        ],
    });
    assert_eq!(ast, expected);
}

#[test]
fn named_chords_carry_quality_and_extensions() {
    let ast = parse(r"{ \E4min7:4 \C4majadd9:8 \F#2dimadd6add11add137|2 \Gb3aug:1 }").unwrap();
    let chord = |root, accidental, octave, quality, extensions, length| {
        SeqEvent::NamedChord(NamedChord {
            chord_name: ChordName {
                root,
                root_accidental: accidental,
                root_octave_number: octave,
                quality,
                extensions,
            },
            note_length: length,
        })
    };
    let expected = one_sequence(Sequence {
        tempo: None,
        time_signature: None,
        notes: vec![
            chord(
                NoteName::E,
                Accidental::Natural,
                4,
                ChordQuality::Minor,
                vec![ChordExtension::Seventh],
                NoteLength::Quarter,
            ),
            chord(
                NoteName::C,
                Accidental::Natural,
                4,
                ChordQuality::Major,
                vec![ChordExtension::Ninth],
                NoteLength::Eighth,
            ),
            chord(
                NoteName::F,
                Accidental::Sharp,
                2,
                ChordQuality::Diminished,
                vec![
                    ChordExtension::Sixth,
                    ChordExtension::Eleventh,
                    ChordExtension::Thirteenth,
                    ChordExtension::Seventh,
                ],
                NoteLength::Bars(2),
            ),
            chord(
                NoteName::G,
                Accidental::Flat,
                3,
                ChordQuality::Augmented,
                vec![],
                NoteLength::Whole,
            ),
        ],
    });
    assert_eq!(ast, expected);
}

#[test]
fn tempo_and_time_signature_are_kept_last_wins() {
    let ast = parse("{ tempo 90\n time 3 4 z:4 tempo 140 time 6\t8 }").unwrap();
    let expected = one_sequence(Sequence {
        tempo: Some(Tempo { tempo: 140 }),
        time_signature: Some(TimeSignature::new(6, 8)),
        notes: vec![SeqEvent::Rest(NoteLength::Quarter)],
    });
    assert_eq!(ast, expected);
}

#[test]
fn empty_text_is_an_empty_tree() {
    assert_eq!(parse("").unwrap(), Root { statements: vec![] });
    assert_eq!(parse(" \n\t ").unwrap(), Root { statements: vec![] });
}

#[test]
fn several_sequences_are_several_statements() {
    let ast = parse("{ C4:4 }\n{ z|1 }").unwrap();
    assert_eq!(ast.statements.len(), 2);
    assert_eq!(
        ast.statements[1],
        Statement::Sequence(Sequence {
            tempo: None,
            time_signature: None,
            notes: vec![SeqEvent::Rest(NoteLength::Bars(1))],
        })
    );
}

#[test]
fn unknown_fraction_is_an_invalid_note_length() {
    let error = parse("{ C4:3 }").unwrap_err();
    assert_eq!(error.error(), &ParsingError::InvalidNoteLength(3));
    assert_eq!(error.slice(), "3");
    assert_eq!(error.line(), 1);
    assert_eq!(error.column(), 6);
    assert_eq!(error.span(), 5..6);
    assert_eq!(error.input(), "{ C4:3 }");
}

#[test]
fn fraction_is_matched_by_its_text() {
    let error = parse("{ C4:04 }").unwrap_err();
    assert_eq!(error.error(), &ParsingError::InvalidNoteLength(4));
    assert_eq!(error.slice(), "04");
    let error = parse("{ C4:0 }").unwrap_err();
    assert_eq!(error.error(), &ParsingError::InvalidNoteLength(0));
    let error = parse("{ C4:128 }").unwrap_err();
    assert_eq!(error.error(), &ParsingError::InvalidNoteLength(128));
}

#[test]
fn invalid_note_length_shows_the_number_where_it_fits() {
    let error = parse("{ C4:2147483647 }").unwrap_err();
    assert_eq!(error.error(), &ParsingError::InvalidNoteLength(2147483647));
    assert_eq!(
        error.message(),
        "Parsing error at 1:6 (`2147483647`): Invalid note length: 2147483647"
    );
    // A number that 31 bits do not hold is shown as 0.
    let error = parse("{ C4:2147483648 }").unwrap_err();
    assert_eq!(error.error(), &ParsingError::InvalidNoteLength(0));
    assert_eq!(error.slice(), "2147483648");
    let error = parse("{ z:99999999999999999999 }").unwrap_err();
    assert_eq!(error.error(), &ParsingError::InvalidNoteLength(0));
}

#[test]
fn bar_count_that_does_not_fit_is_an_invalid_note_length() {
    let error = parse("{ C4|4294967296 }").unwrap_err();
    assert_eq!(error.error(), &ParsingError::InvalidNoteLength(0));
    assert_eq!(error.slice(), "4294967296");
    let ast = parse("{ C4|4294967295 }").unwrap();
    assert_eq!(
        ast,
        one_sequence(Sequence {
            tempo: None,
            time_signature: None,
            notes: vec![note(
                NoteName::C,
                Accidental::Natural,
                4,
                NoteLength::Bars(4294967295)
            )],
        })
    );
}

#[test]
fn missing_brace_is_the_end_of_input() {
    let error = parse("\n  { C4:4").unwrap_err();
    assert_eq!(error.error(), &ParsingError::Eoi);
    // The error of a text that ends too early points at the first token.
    assert_eq!(error.slice(), "\n  ");
    assert_eq!((error.line(), error.column()), (1, 1));
}

#[test]
fn text_outside_braces_is_unexpected() {
    let error = parse("{ C4:4 }\n  C4:4").unwrap_err();
    assert_eq!(error.error(), &ParsingError::UnexpectedToken(Token::NoteName));
    assert_eq!(error.slice(), "C");
    assert_eq!((error.line(), error.column()), (2, 3));
}

#[test]
fn token_that_starts_no_event_is_unexpected() {
    let error = parse("{ :4 }").unwrap_err();
    assert_eq!(error.error(), &ParsingError::UnexpectedToken(Token::Colon));
    assert_eq!(error.slice(), ":");
    let error = parse("{ C4 }").unwrap_err();
    assert_eq!(error.error(), &ParsingError::UnexpectedToken(Token::Whitespace));
    let error = parse("{ C:4 }").unwrap_err();
    assert_eq!(error.error(), &ParsingError::UnexpectedToken(Token::Colon));
    let error = parse(r"{ \C4:4 }").unwrap_err();
    assert_eq!(error.error(), &ParsingError::UnexpectedToken(Token::Colon));
    let error = parse("{ tempo120 }").unwrap_err();
    assert_eq!(error.error(), &ParsingError::UnexpectedToken(Token::Number));
}

#[test]
fn lower_case_letter_is_an_invalid_note_name() {
    let error = parse("{ c4:4 }").unwrap_err();
    assert_eq!(error.error(), &ParsingError::InvalidNoteName("c".to_string()));
    assert_eq!(error.slice(), "c");
    assert_eq!((error.line(), error.column()), (1, 3));
}

#[test]
fn number_that_is_no_extension_ends_the_extensions() {
    let error = parse(r"{ \C4maj9:4 }").unwrap_err();
    assert_eq!(error.error(), &ParsingError::UnexpectedToken(Token::Number));
    assert_eq!(error.slice(), "9");
}

#[test]
fn numbers_that_do_not_fit_are_integer_errors() {
    let error = parse("{ tempo 4294967296 }").unwrap_err();
    assert_eq!(error.error(), &ParsingError::ParseIntError);
    assert_eq!(error.slice(), "4294967296");
    let error = parse("{ time 256 4 }").unwrap_err();
    assert_eq!(error.error(), &ParsingError::ParseIntError);
    assert_eq!(error.slice(), "256");
    let error = parse("{ time 4 0 }").unwrap_err();
    assert_eq!(error.error(), &ParsingError::ParseIntError);
    assert_eq!(error.slice(), "0");
    assert_eq!(error.column(), 10);
    let error = parse("{ time 0 4 }").unwrap_err();
    assert_eq!(error.error(), &ParsingError::ParseIntError);
    assert_eq!(error.column(), 8);
    let error = parse("{ C2147483648:4 }").unwrap_err();
    assert_eq!(error.error(), &ParsingError::ParseIntError);
    assert_eq!(error.slice(), "2147483648");
    assert!(parse("{ C2147483647:4 tempo 4294967295 time 255 255 }").is_ok());
    assert!(parse("{ tempo 0007 }").is_ok());
}

#[test]
fn character_that_starts_no_token_is_a_lexing_error() {
    let error = parse("{ C4:4\n  ? }").unwrap_err();
    assert_eq!(error.error(), &ParsingError::LexingError);
    assert_eq!(error.slice(), "?");
    assert_eq!((error.line(), error.column()), (2, 3));
    assert_eq!(error.span(), 9..10);
}

#[test]
fn lexing_error_spans_a_whole_character() {
    let error = parse("{ C4:4 é }").unwrap_err();
    assert_eq!(error.error(), &ParsingError::LexingError);
    assert_eq!(error.slice(), "é");
    assert_eq!(error.span(), 7..9);
    assert_eq!((error.line(), error.column()), (1, 8));
    let error = parse("{ 𝄞 }").unwrap_err();
    assert_eq!(error.slice(), "𝄞");
    assert_eq!(error.span(), 2..6);
}

#[test]
fn half_a_keyword_is_a_lexing_error() {
    let error = parse("{ temp 120 }").unwrap_err();
    assert_eq!(error.error(), &ParsingError::LexingError);
    assert_eq!(error.slice(), "t");
    assert_eq!(error.span(), 2..3);
}

#[test]
fn message_shows_line_column_text_and_reason() {
    let error = parse("{ C4:3 }").unwrap_err();
    assert_eq!(
        error.message(),
        "Parsing error at 1:6 (`3`): Invalid note length: 3"
    );
    assert_eq!(error.error().message(), "Invalid note length: 3");
    let error = parse("{ C4:4 }\n{\n           c4:4 }").unwrap_err();
    assert_eq!(
        error.message(),
        "Parsing error at 3:12 (`c`): Invalid note name: c (expected one of `ABCDEFG`)"
    );
    let error = parse("{ C4:4 é }").unwrap_err();
    assert_eq!(error.message(), "Parsing error at 1:8 (`é`): Lexing error");
    let error = parse("{ C4:4 ").unwrap_err();
    assert_eq!(
        error.message(),
        "Parsing error at 1:1 (`{`): Unexpected end of input"
    );
    let error = parse("{ ] }").unwrap_err();
    assert_eq!(
        error.message(),
        "Parsing error at 1:3 (`]`): Unexpected token: CBracket"
    );
    let error = parse("{ tempo 99999999999 }").unwrap_err();
    assert_eq!(
        error.message(),
        "Parsing error at 1:9 (`99999999999`): Expected integer"
    );
}

#[test]
fn every_error_has_its_message() {
    assert_eq!(ParsingError::LexingError.message(), "Lexing error");
    assert_eq!(ParsingError::Eoi.message(), "Unexpected end of input");
    assert_eq!(
        ParsingError::UnexpectedToken(Token::ChordExtension).message(),
        "Unexpected token: ChordExtension"
    );
    assert_eq!(
        ParsingError::InvalidNoteLength(-120).message(),
        "Invalid note length: -120"
    );
    assert_eq!(
        ParsingError::InvalidNoteLength(i32::MIN).message(),
        "Invalid note length: -2147483648"
    );
    assert_eq!(
        ParsingError::InvalidNoteLength(1907).message(),
        "Invalid note length: 1907"
    );
    assert_eq!(
        ParsingError::InvalidChordQuality("sus".to_string()).message(),
        "Invalid chord quality: sus"
    );
    assert_eq!(
        ParsingError::InvalidChordExtension("add7".to_string()).message(),
        "Invalid chord extension: add7"
    );
    assert_eq!(ParsingError::ParseIntError.message(), "Expected integer");
}

#[test]
fn token_kinds_have_names() {
    assert_eq!(Token::Whitespace.name(), "Whitespace");
    assert_eq!(Token::NoteName.name(), "NoteName");
    assert_eq!(Token::Rest.name(), "Rest");
    assert_eq!(format!("{:?}", Token::OBrace), Token::OBrace.name());
}
