//! The grammar of the notation: what a run of tokens means, as functions
//! from the tokens and a position among them to a piece of syntax and the
//! position behind it, or to the error that the first offending token earns.

use vstd::prelude::*;

use crate::lexer::is_digit;
use crate::lexer::lemma_token_text;
use crate::lexer::lemma_tokens_from;
use crate::lexer::text_of_kind;
use crate::lexer::tokens_of;
use crate::parser::ParsingErrorView;
use crate::parser::SpannedParsingErrorView;
use crate::parser::SpannedTokenView;
use crate::parser::error_at;
use crate::parser::expect_at;
use crate::parser::peek_at;
use crate::parser::skip_whitespace_at;
use crate::parser::spanned_tokens;
use crate::parser::tokenized;
use crate::parser::unexpected;
use crate::syntax::Accidental;
use crate::syntax::ChordExtension;
use crate::syntax::ChordNameView;
use crate::syntax::ChordNote;
use crate::syntax::ChordQuality;
use crate::syntax::ListChordView;
use crate::syntax::NamedChordView;
use crate::syntax::NoteLength;
use crate::syntax::NoteName;
use crate::syntax::RootView;
use crate::syntax::SeqEventView;
use crate::syntax::SequenceView;
use crate::syntax::SingleNote;
use crate::syntax::StatementView;
use crate::syntax::Tempo;
use crate::syntax::TimeSignature;
use crate::syntax::Token;

verus! {

/// A piece of syntax and the position behind it, or an error.
pub type Parsed<T> = Result<(T, int), SpannedParsingErrorView>;

/// True where every byte is a decimal digit.
pub open spec fn all_digits(text: Seq<u8>) -> bool {
    forall|i: int| 0 <= i < text.len() ==> is_digit(#[trigger] text[i])
}

/// The number that decimal digits write.
pub open spec fn decimal_value(digits: Seq<u8>) -> int
    decreases digits.len(),
{
    if digits.len() == 0 {
        0
    } else {
        decimal_value(digits.drop_last()) * 10 + (digits.last() - '0' as u8)
    }
}

/// The number that a text writes in decimal digits, where it writes one
/// from `min` to `max`.
pub open spec fn number_in(text: Seq<u8>, min: int, max: int) -> Option<int> {
    if text.len() > 0 && all_digits(text) && min <= decimal_value(text) <= max {
        Some(decimal_value(text))
    } else {
        None
    }
}

/// A number token that writes a number from `min` to `max`; `error` is what
/// any other number earns.
pub open spec fn integer_at(
    tokens: Seq<SpannedTokenView>,
    pos: int,
    min: int,
    max: int,
    error: ParsingErrorView,
) -> Parsed<int> {
    match expect_at(tokens, pos, Token::Number) {
        Err(failure) => Err(failure),
        Ok(token) => match number_in(token.text(), min, max) {
            Some(value) => Ok((value, pos + 1)),
            None => Err(error_at(error, token)),
        },
    }
}

/// Beats per minute: a number that fits in 32 bits.
pub open spec fn tempo_at(tokens: Seq<SpannedTokenView>, pos: int) -> Parsed<u32> {
    match integer_at(tokens, pos, 0, u32::MAX as int, ParsingErrorView::ParseIntError) {
        Err(failure) => Err(failure),
        Ok((value, next)) => Ok((value as u32, next)),
    }
}

/// A time signature: two numbers from 1 to 255, with or without whitespace
/// between them.
pub open spec fn time_signature_at(tokens: Seq<SpannedTokenView>, pos: int) -> Parsed<
    TimeSignature,
> {
    match integer_at(tokens, pos, 1, u8::MAX as int, ParsingErrorView::ParseIntError) {
        Err(failure) => Err(failure),
        Ok((numerator, next)) => match integer_at(
            tokens,
            skip_whitespace_at(tokens, next),
            1,
            u8::MAX as int,
            ParsingErrorView::ParseIntError,
        ) {
            Err(failure) => Err(failure),
            Ok((denominator, end)) => Ok(
                (TimeSignature::spec_new(numerator as u8, denominator as u8), end),
            ),
        },
    }
}

/// A note name: a letter token that is one of the upper case letters A to
/// G.
pub open spec fn note_name_at(tokens: Seq<SpannedTokenView>, pos: int) -> Parsed<NoteName> {
    match expect_at(tokens, pos, Token::NoteName) {
        Err(failure) => Err(failure),
        Ok(token) => match NoteName::spec_from_bytes(token.text()) {
            Some(name) => Ok((name, pos + 1)),
            None => Err(error_at(ParsingErrorView::InvalidNoteName(token.text()), token)),
        },
    }
}

/// An accidental: a sharp or a flat where one stands, natural where none
/// does.
pub open spec fn accidental_at(tokens: Seq<SpannedTokenView>, pos: int) -> Parsed<Accidental> {
    match peek_at(tokens, pos) {
        Err(failure) => Err(failure),
        Ok(token) => if token.token == Token::Sharp {
            Ok((Accidental::Sharp, pos + 1))
        } else if token.token == Token::Flat {
            Ok((Accidental::Flat, pos + 1))
        } else {
            Ok((Accidental::Natural, pos))
        },
    }
}

/// An octave: a number that fits in 31 bits.
pub open spec fn octave_at(tokens: Seq<SpannedTokenView>, pos: int) -> Parsed<i32> {
    match integer_at(tokens, pos, 0, i32::MAX as int, ParsingErrorView::ParseIntError) {
        Err(failure) => Err(failure),
        Ok((value, next)) => Ok((value as i32, next)),
    }
}

/// The number that an invalid note length shows: the one that was written,
/// where it fits in 31 bits, and 0 where it does not.
pub open spec fn length_written(text: Seq<u8>) -> i32 {
    match number_in(text, 0, i32::MAX as int) {
        Some(value) => value as i32,
        None => 0,
    }
}

/// The error of a number that is no note length.
pub open spec fn invalid_note_length(text: Seq<u8>) -> ParsingErrorView {
    ParsingErrorView::InvalidNoteLength(length_written(text))
}

/// A duration: a colon and the number of a fraction of a whole note, or a
/// bar and a count of bars. A bar count that is refused fits in 32 bits no
/// more than in 31, so that its error shows 0.
pub open spec fn note_length_at(tokens: Seq<SpannedTokenView>, pos: int) -> Parsed<NoteLength> {
    match peek_at(tokens, pos) {
        Err(failure) => Err(failure),
        Ok(token) => if token.token == Token::Colon {
            match expect_at(tokens, pos + 1, Token::Number) {
                Err(failure) => Err(failure),
                Ok(number) => match NoteLength::spec_from_bytes(number.text()) {
                    Some(length) => Ok((length, pos + 2)),
                    None => Err(error_at(invalid_note_length(number.text()), number)),
                },
            }
        } else if token.token == Token::Bar {
            match integer_at(
                tokens,
                pos + 1,
                0,
                u32::MAX as int,
                ParsingErrorView::InvalidNoteLength(0),
            ) {
                Err(failure) => Err(failure),
                Ok((bars, next)) => Ok((NoteLength::Bars(bars as u32), next)),
            }
        } else {
            Err(unexpected(token))
        },
    }
}

/// A pitch as written: a note name, an accidental or none, and an octave.
pub open spec fn chord_note_at(tokens: Seq<SpannedTokenView>, pos: int) -> Parsed<ChordNote> {
    match note_name_at(tokens, pos) {
        Err(failure) => Err(failure),
        Ok((note_name, after_name)) => match accidental_at(tokens, after_name) {
            Err(failure) => Err(failure),
            Ok((accidental, after_accidental)) => match octave_at(tokens, after_accidental) {
                Err(failure) => Err(failure),
                Ok((octave_number, next)) => Ok(
                    (ChordNote { note_name, octave_number, accidental }, next),
                ),
            },
        },
    }
}

/// A single note: a pitch and a duration.
pub open spec fn single_note_at(tokens: Seq<SpannedTokenView>, pos: int) -> Parsed<SingleNote> {
    match chord_note_at(tokens, pos) {
        Err(failure) => Err(failure),
        Ok((note, after_note)) => match note_length_at(tokens, after_note) {
            Err(failure) => Err(failure),
            Ok((note_length, next)) => Ok(
                (
                    SingleNote {
                        note_name: note.note_name,
                        octave_number: note.octave_number,
                        note_length,
                        accidental: note.accidental,
                    },
                    next,
                ),
            ),
        },
    }
}

/// The notes of a list chord behind those already read, up to and with the
/// closing bracket. Whitespace may stand between them.
pub open spec fn chord_notes_at(
    tokens: Seq<SpannedTokenView>,
    pos: int,
    notes: Seq<ChordNote>,
) -> Parsed<Seq<ChordNote>>
    decreases tokens.len() - pos,
    via chord_notes_terminate
{
    match peek_at(tokens, pos) {
        Err(failure) => Err(failure),
        Ok(token) => if token.token == Token::Whitespace {
            chord_notes_at(tokens, pos + 1, notes)
        } else if token.token == Token::CBracket {
            Ok((notes, pos + 1))
        } else {
            match chord_note_at(tokens, pos) {
                Err(failure) => Err(failure),
                Ok((note, next)) => chord_notes_at(tokens, next, notes.push(note)),
            }
        },
    }
}

#[via_fn]
proof fn chord_notes_terminate(tokens: Seq<SpannedTokenView>, pos: int, notes: Seq<ChordNote>) {
    lemma_chord_note_advances(tokens, pos);
}

/// A list chord behind its opening bracket: its notes, the closing bracket
/// and one duration.
pub open spec fn list_chord_at(tokens: Seq<SpannedTokenView>, pos: int) -> Parsed<ListChordView> {
    match chord_notes_at(tokens, pos, Seq::empty()) {
        Err(failure) => Err(failure),
        Ok((notes, after_notes)) => match note_length_at(tokens, after_notes) {
            Err(failure) => Err(failure),
            Ok((note_length, next)) => Ok((ListChordView { notes, note_length }, next)),
        },
    }
}

/// A chord quality: a quality token that is one of the four keywords.
pub open spec fn chord_quality_at(tokens: Seq<SpannedTokenView>, pos: int) -> Parsed<
    ChordQuality,
> {
    match expect_at(tokens, pos, Token::ChordQuality) {
        Err(failure) => Err(failure),
        Ok(token) => match ChordQuality::spec_from_bytes(token.text()) {
            Some(quality) => Ok((quality, pos + 1)),
            None => Err(error_at(ParsingErrorView::InvalidChordQuality(token.text()), token)),
        },
    }
}

/// The digit that stands for a seventh among the extensions.
pub open spec fn seventh_word() -> Seq<u8> {
    seq!['7' as u8]
}

/// The extensions of a chord behind those already read: as many extension
/// keywords and sevens as stand there. The first other token ends them.
pub open spec fn chord_extensions_at(
    tokens: Seq<SpannedTokenView>,
    pos: int,
    extensions: Seq<ChordExtension>,
) -> Parsed<Seq<ChordExtension>>
    decreases tokens.len() - pos,
{
    match peek_at(tokens, pos) {
        Err(failure) => Err(failure),
        Ok(token) => if token.token == Token::Number {
            if token.text() == seventh_word() {
                chord_extensions_at(tokens, pos + 1, extensions.push(ChordExtension::Seventh))
            } else {
                Ok((extensions, pos))
            }
        } else if token.token == Token::ChordExtension {
            match ChordExtension::spec_from_bytes(token.text()) {
                Some(extension) => chord_extensions_at(
                    tokens,
                    pos + 1,
                    extensions.push(extension),
                ),
                None => Err(
                    error_at(ParsingErrorView::InvalidChordExtension(token.text()), token),
                ),
            }
        } else {
            Ok((extensions, pos))
        },
    }
}

/// The name of a chord: the pitch of its root, its quality and its
/// extensions.
pub open spec fn chord_name_at(tokens: Seq<SpannedTokenView>, pos: int) -> Parsed<ChordNameView> {
    match chord_note_at(tokens, pos) {
        Err(failure) => Err(failure),
        Ok((root, after_root)) => match chord_quality_at(tokens, after_root) {
            Err(failure) => Err(failure),
            Ok((quality, after_quality)) => match chord_extensions_at(
                tokens,
                after_quality,
                Seq::empty(),
            ) {
                Err(failure) => Err(failure),
                Ok((extensions, next)) => Ok(
                    (
                        ChordNameView {
                            root: root.note_name,
                            root_accidental: root.accidental,
                            root_octave_number: root.octave_number,
                            quality,
                            extensions,
                        },
                        next,
                    ),
                ),
            },
        },
    }
}

/// A named chord behind its backslash: the name of a chord and a duration.
pub open spec fn named_chord_at(tokens: Seq<SpannedTokenView>, pos: int) -> Parsed<
    NamedChordView,
> {
    match chord_name_at(tokens, pos) {
        Err(failure) => Err(failure),
        Ok((chord_name, after_name)) => match note_length_at(tokens, after_name) {
            Err(failure) => Err(failure),
            Ok((note_length, next)) => Ok((NamedChordView { chord_name, note_length }, next)),
        },
    }
}

/// What one item of a sequence makes of the sequence read so far: a tempo
/// or a time signature replaces the one before it, and an event joins the
/// events. `None` of the closing brace, which ends the sequence.
pub open spec fn sequence_item_at(
    tokens: Seq<SpannedTokenView>,
    pos: int,
    sequence: SequenceView,
) -> Parsed<Option<SequenceView>> {
    match peek_at(tokens, pos) {
        Err(failure) => Err(failure),
        Ok(token) => if token.token == Token::Whitespace {
            Ok((Some(sequence), pos + 1))
        } else if token.token == Token::CBrace {
            Ok((None, pos + 1))
        } else if token.token == Token::Tempo {
            match expect_at(tokens, pos + 1, Token::Whitespace) {
                Err(failure) => Err(failure),
                Ok(_) => match tempo_at(tokens, pos + 2) {
                    Err(failure) => Err(failure),
                    Ok((tempo, next)) => Ok(
                        (Some(SequenceView { tempo: Some(Tempo { tempo }), ..sequence }), next),
                    ),
                },
            }
        } else if token.token == Token::Time {
            match expect_at(tokens, pos + 1, Token::Whitespace) {
                Err(failure) => Err(failure),
                Ok(_) => match time_signature_at(tokens, pos + 2) {
                    Err(failure) => Err(failure),
                    Ok((time_signature, next)) => Ok(
                        (
                            Some(
                                SequenceView { time_signature: Some(time_signature), ..sequence },
                            ),
                            next,
                        ),
                    ),
                },
            }
        } else if token.token == Token::Backslash {
            match named_chord_at(tokens, pos + 1) {
                Err(failure) => Err(failure),
                Ok((chord, next)) => Ok(
                    (with_event(sequence, SeqEventView::NamedChord(chord)), next),
                ),
            }
        } else if token.token == Token::OBracket {
            match list_chord_at(tokens, pos + 1) {
                Err(failure) => Err(failure),
                Ok((chord, next)) => Ok(
                    (with_event(sequence, SeqEventView::ListChord(chord)), next),
                ),
            }
        } else if token.token == Token::NoteName {
            match single_note_at(tokens, pos) {
                Err(failure) => Err(failure),
                Ok((note, next)) => Ok((with_event(sequence, SeqEventView::Single(note)), next)),
            }
        } else if token.token == Token::Rest {
            match note_length_at(tokens, pos + 1) {
                Err(failure) => Err(failure),
                Ok((length, next)) => Ok((with_event(sequence, SeqEventView::Rest(length)), next)),
            }
        } else {
            Err(unexpected(token))
        },
    }
}

/// The sequence with one more event at its end.
pub open spec fn with_event(sequence: SequenceView, event: SeqEventView) -> Option<SequenceView> {
    Some(SequenceView { notes: sequence.notes.push(event), ..sequence })
}

/// A sequence behind what was read of it, up to and with its closing brace.
pub open spec fn sequence_at(
    tokens: Seq<SpannedTokenView>,
    pos: int,
    sequence: SequenceView,
) -> Parsed<SequenceView>
    decreases tokens.len() - pos,
    via sequence_terminates
{
    match sequence_item_at(tokens, pos, sequence) {
        Err(failure) => Err(failure),
        Ok((None, next)) => Ok((sequence, next)),
        Ok((Some(longer), next)) => sequence_at(tokens, next, longer),
    }
}

#[via_fn]
proof fn sequence_terminates(tokens: Seq<SpannedTokenView>, pos: int, sequence: SequenceView) {
    if peek_at(tokens, pos) is Ok {
        lemma_sequence_item_advances(tokens, pos, sequence);
    }
}

/// The sequence that nothing was read of yet.
pub open spec fn empty_sequence() -> SequenceView {
    SequenceView { tempo: None, time_signature: None, notes: Seq::empty() }
}

/// The syntax tree of the tokens behind the statements already read:
/// sequences in braces, with or without whitespace around them.
pub open spec fn root_at(
    tokens: Seq<SpannedTokenView>,
    pos: int,
    statements: Seq<StatementView>,
) -> Result<RootView, SpannedParsingErrorView>
    decreases tokens.len() - pos,
    via root_terminates
{
    if pos < 0 || pos >= tokens.len() {
        Ok(RootView { statements })
    } else if tokens[pos].token == Token::Whitespace {
        root_at(tokens, pos + 1, statements)
    } else if tokens[pos].token == Token::OBrace {
        match sequence_at(tokens, pos + 1, empty_sequence()) {
            Err(failure) => Err(failure),
            Ok((sequence, next)) => root_at(
                tokens,
                next,
                statements.push(StatementView::Sequence(sequence)),
            ),
        }
    } else {
        Err(unexpected(tokens[pos]))
    }
}

#[via_fn]
proof fn root_terminates(tokens: Seq<SpannedTokenView>, pos: int, statements: Seq<StatementView>) {
    if 0 <= pos {
        lemma_sequence_advances(tokens, pos + 1, empty_sequence());
    }
}

/// The syntax tree of a run of tokens.
pub open spec fn parse_tokens(tokens: Seq<SpannedTokenView>) -> Result<
    RootView,
    SpannedParsingErrorView,
> {
    root_at(tokens, 0, Seq::empty())
}

/// The syntax tree of a text.
pub open spec fn parse_text(source: Seq<u8>) -> Result<RootView, SpannedParsingErrorView> {
    match tokenized(source) {
        Err(failure) => Err(failure),
        Ok(tokens) => parse_tokens(tokens),
    }
}

/// What is read is read forwards and from the tokens: a piece of syntax
/// ends behind where it starts, by at least `least` tokens, and not behind
/// the last token.
pub open spec fn advances<T>(
    parsed: Parsed<T>,
    tokens: Seq<SpannedTokenView>,
    pos: int,
    least: int,
) -> bool {
    parsed matches Ok((_, next)) ==> pos + least <= next <= tokens.len()
}

/// A pitch takes at least two tokens.
pub proof fn lemma_chord_note_advances(tokens: Seq<SpannedTokenView>, pos: int)
    ensures
        advances(chord_note_at(tokens, pos), tokens, pos, 2),
{
}

/// A duration takes two tokens.
pub proof fn lemma_note_length_advances(tokens: Seq<SpannedTokenView>, pos: int)
    ensures
        advances(note_length_at(tokens, pos), tokens, pos, 2),
{
}

/// The notes of a list chord take at least the closing bracket.
pub proof fn lemma_chord_notes_advance(
    tokens: Seq<SpannedTokenView>,
    pos: int,
    notes: Seq<ChordNote>,
)
    requires
        0 <= pos,
    ensures
        advances(chord_notes_at(tokens, pos, notes), tokens, pos, 1),
    decreases tokens.len() - pos,
{
    if let Ok(token) = peek_at(tokens, pos) {
        if token.token == Token::Whitespace {
            lemma_chord_notes_advance(tokens, pos + 1, notes);
        } else if token.token == Token::CBracket {
        } else {
            lemma_chord_note_advances(tokens, pos);
            if let Ok((note, next)) = chord_note_at(tokens, pos) {
                lemma_chord_notes_advance(tokens, next, notes.push(note));
            }
        }
    }
}

/// The extensions of a chord may take no token, and take none behind the
/// last.
pub proof fn lemma_chord_extensions_advance(
    tokens: Seq<SpannedTokenView>,
    pos: int,
    extensions: Seq<ChordExtension>,
)
    requires
        0 <= pos,
    ensures
        advances(chord_extensions_at(tokens, pos, extensions), tokens, pos, 0),
    decreases tokens.len() - pos,
{
    if let Ok(token) = peek_at(tokens, pos) {
        if token.token == Token::Number {
            if token.text() == seventh_word() {
                lemma_chord_extensions_advance(
                    tokens,
                    pos + 1,
                    extensions.push(ChordExtension::Seventh),
                );
            }
        } else if token.token == Token::ChordExtension {
            if let Some(extension) = ChordExtension::spec_from_bytes(token.text()) {
                lemma_chord_extensions_advance(tokens, pos + 1, extensions.push(extension));
            }
        }
    }
}

/// Every item of a sequence takes at least one token.
pub proof fn lemma_sequence_item_advances(
    tokens: Seq<SpannedTokenView>,
    pos: int,
    sequence: SequenceView,
)
    requires
        0 <= pos,
    ensures
        advances(sequence_item_at(tokens, pos, sequence), tokens, pos, 1),
{
    lemma_chord_note_advances(tokens, pos);
    lemma_chord_note_advances(tokens, pos + 1);
    lemma_chord_notes_advance(tokens, pos + 1, Seq::empty());
    if let Ok((_, next)) = chord_note_at(tokens, pos) {
        lemma_note_length_advances(tokens, next);
    }
    if let Ok((_, next)) = chord_notes_at(tokens, pos + 1, Seq::empty()) {
        lemma_note_length_advances(tokens, next);
    }
    if let Ok((_, after_root)) = chord_note_at(tokens, pos + 1) {
        if let Ok((_, after_quality)) = chord_quality_at(tokens, after_root) {
            lemma_chord_extensions_advance(tokens, after_quality, Seq::empty());
            if let Ok((_, next)) = chord_extensions_at(tokens, after_quality, Seq::empty()) {
                lemma_note_length_advances(tokens, next);
            }
        }
    }
    lemma_note_length_advances(tokens, pos + 1);
}

/// A sequence takes at least its closing brace.
pub proof fn lemma_sequence_advances(
    tokens: Seq<SpannedTokenView>,
    pos: int,
    sequence: SequenceView,
)
    requires
        0 <= pos,
    ensures
        advances(sequence_at(tokens, pos, sequence), tokens, pos, 1),
    decreases tokens.len() - pos,
{
    lemma_sequence_item_advances(tokens, pos, sequence);
    if let Ok((Some(longer), next)) = sequence_item_at(tokens, pos, sequence) {
        lemma_sequence_advances(tokens, next, longer);
    }
}

/// A colon before a number that names no fraction of a whole note is an
/// invalid note length: the error points at the number and shows it.
pub proof fn lemma_unknown_fraction(tokens: Seq<SpannedTokenView>, pos: int)
    requires
        0 <= pos,
        pos + 1 < tokens.len(),
        tokens[pos].token == Token::Colon,
        tokens[pos + 1].token == Token::Number,
        NoteLength::spec_from_bytes(tokens[pos + 1].text()) is None,
    ensures
        note_length_at(tokens, pos) == Err::<(NoteLength, int), _>(
            error_at(invalid_note_length(tokens[pos + 1].text()), tokens[pos + 1]),
        ),
{
}

/// Every invalid note length points at the number behind the colon or the
/// bar, and shows that number where it fits in 31 bits.
pub proof fn lemma_invalid_note_length(tokens: Seq<SpannedTokenView>, pos: int)
    requires
        note_length_at(tokens, pos) matches Err(failure) && failure.error is InvalidNoteLength,
    ensures
        0 <= pos,
        pos + 1 < tokens.len(),
        tokens[pos + 1].token == Token::Number,
        note_length_at(tokens, pos) == Err::<(NoteLength, int), _>(
            error_at(invalid_note_length(tokens[pos + 1].text()), tokens[pos + 1]),
        ),
{
}

/// A sequence with an item that fails has no syntax: the first error ends
/// the reading.
pub proof fn lemma_first_error_ends_sequence(
    tokens: Seq<SpannedTokenView>,
    pos: int,
    sequence: SequenceView,
)
    requires
        sequence_item_at(tokens, pos, sequence) is Err,
    ensures
        sequence_at(tokens, pos, sequence) == Err::<(SequenceView, int), _>(
            sequence_item_at(tokens, pos, sequence)->Err_0,
        ),
{
}

/// True where every token is made of what its kind is made of.
pub open spec fn well_lexed(tokens: Seq<SpannedTokenView>) -> bool {
    forall|i: int| 0 <= i < tokens.len() ==> text_of_kind((#[trigger] tokens[i]).token, tokens[i].text())
}

/// The tokens of a text are made of what their kinds are made of.
pub proof fn lemma_tokenized_well_lexed(source: Seq<u8>)
    requires
        source.len() <= usize::MAX,
        tokenized(source) is Ok,
    ensures
        well_lexed(tokenized(source)->Ok_0),
{
    let lexemes = tokens_of(source)->Ok_0;
    let tokens = tokenized(source)->Ok_0;
    lemma_tokens_from(source, 0);
    assert forall|i: int| 0 <= i < tokens.len() implies text_of_kind(
        (#[trigger] tokens[i]).token,
        tokens[i].text(),
    ) by {
        assert(tokens[i] == spanned_tokens(source, lexemes)[i]);
        let lexeme = lexemes[i];
        assert(0 <= lexeme.start < lexeme.end <= source.len());
        lemma_token_text(source, lexeme.start as int);
    }
}

/// True of the errors that blame a keyword for naming no quality or no
/// extension.
pub open spec fn blames_keyword(failure: SpannedParsingErrorView) -> bool {
    failure.error is InvalidChordQuality || failure.error is InvalidChordExtension
}

/// True where a result is no error that blames a keyword.
pub open spec fn keeps_keywords<T>(parsed: Parsed<T>) -> bool {
    parsed matches Err(failure) ==> !blames_keyword(failure)
}

proof fn lemma_chord_notes_keep_keywords(
    tokens: Seq<SpannedTokenView>,
    pos: int,
    notes: Seq<ChordNote>,
)
    ensures
        keeps_keywords(chord_notes_at(tokens, pos, notes)),
    decreases tokens.len() - pos,
{
    if let Ok(token) = peek_at(tokens, pos) {
        if token.token == Token::Whitespace {
            lemma_chord_notes_keep_keywords(tokens, pos + 1, notes);
        } else if token.token == Token::CBracket {
        } else {
            lemma_chord_note_advances(tokens, pos);
            if let Ok((note, next)) = chord_note_at(tokens, pos) {
                lemma_chord_notes_keep_keywords(tokens, next, notes.push(note));
            }
        }
    }
}

proof fn lemma_chord_extensions_keep_keywords(
    tokens: Seq<SpannedTokenView>,
    pos: int,
    extensions: Seq<ChordExtension>,
)
    requires
        well_lexed(tokens),
    ensures
        keeps_keywords(chord_extensions_at(tokens, pos, extensions)),
    decreases tokens.len() - pos,
{
    if let Ok(token) = peek_at(tokens, pos) {
        assert(text_of_kind(tokens[pos].token, tokens[pos].text()));
        if token.token == Token::Number {
            if token.text() == seventh_word() {
                lemma_chord_extensions_keep_keywords(
                    tokens,
                    pos + 1,
                    extensions.push(ChordExtension::Seventh),
                );
            }
        } else if token.token == Token::ChordExtension {
            let extension = ChordExtension::spec_from_bytes(token.text())->Some_0;
            lemma_chord_extensions_keep_keywords(tokens, pos + 1, extensions.push(extension));
        }
    }
}

proof fn lemma_named_chord_keeps_keywords(tokens: Seq<SpannedTokenView>, pos: int)
    requires
        well_lexed(tokens),
    ensures
        keeps_keywords(named_chord_at(tokens, pos)),
{
    if let Ok((_, after_root)) = chord_note_at(tokens, pos) {
        if let Ok(token) = expect_at(tokens, after_root, Token::ChordQuality) {
            assert(text_of_kind(tokens[after_root].token, tokens[after_root].text()));
        }
        if let Ok((_, after_quality)) = chord_quality_at(tokens, after_root) {
            lemma_chord_extensions_keep_keywords(tokens, after_quality, Seq::empty());
        }
    }
}

proof fn lemma_sequence_item_keeps_keywords(
    tokens: Seq<SpannedTokenView>,
    pos: int,
    sequence: SequenceView,
)
    requires
        well_lexed(tokens),
    ensures
        keeps_keywords(sequence_item_at(tokens, pos, sequence)),
{
    lemma_named_chord_keeps_keywords(tokens, pos + 1);
    lemma_chord_notes_keep_keywords(tokens, pos + 1, Seq::empty());
}

proof fn lemma_sequence_keeps_keywords(
    tokens: Seq<SpannedTokenView>,
    pos: int,
    sequence: SequenceView,
)
    requires
        well_lexed(tokens),
    ensures
        keeps_keywords(sequence_at(tokens, pos, sequence)),
    decreases tokens.len() - pos,
{
    lemma_sequence_item_keeps_keywords(tokens, pos, sequence);
    if let Ok((Some(longer), next)) = sequence_item_at(tokens, pos, sequence) {
        lemma_sequence_item_advances(tokens, pos, sequence);
        lemma_sequence_keeps_keywords(tokens, next, longer);
    }
}

proof fn lemma_root_keeps_keywords(
    tokens: Seq<SpannedTokenView>,
    pos: int,
    statements: Seq<StatementView>,
)
    requires
        well_lexed(tokens),
    ensures
        root_at(tokens, pos, statements) matches Err(failure) ==> !blames_keyword(failure),
    decreases tokens.len() - pos,
{
    if 0 <= pos < tokens.len() {
        if tokens[pos].token == Token::Whitespace {
            lemma_root_keeps_keywords(tokens, pos + 1, statements);
        } else if tokens[pos].token == Token::OBrace {
            lemma_sequence_keeps_keywords(tokens, pos + 1, empty_sequence());
            if let Ok((sequence, next)) = sequence_at(tokens, pos + 1, empty_sequence()) {
                lemma_sequence_advances(tokens, pos + 1, empty_sequence());
                lemma_root_keeps_keywords(
                    tokens,
                    next,
                    statements.push(StatementView::Sequence(sequence)),
                );
            }
        }
    }
}

/// No text earns an error that blames a keyword for naming no chord
/// quality or no chord extension: the tokenizer reads such keywords only
/// where they name one.
pub proof fn lemma_keywords_are_never_blamed(source: Seq<u8>)
    requires
        source.len() <= usize::MAX,
    ensures
        parse_text(source) matches Err(failure) ==> !blames_keyword(failure),
{
    if let Ok(tokens) = tokenized(source) {
        lemma_tokenized_well_lexed(source);
        lemma_root_keeps_keywords(tokens, 0, Seq::empty());
    }
}

} // verus!
