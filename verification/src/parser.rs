//! The parser: tokens with their place in the text, errors that point at
//! the offending text, a token stream with checkpoints, and the
//! recursive-descent parser over it.

use core::ops::Range;
use vstd::pervasive::unreached;
use vstd::prelude::*;
use vstd::slice::slice_subrange;
use vstd::string::StringExecFns;
use vstd::string::StringSliceAdditionalSpecFns;
use vstd::utf8::*;

use crate::grammar::accidental_at;
use crate::grammar::all_digits;
use crate::grammar::chord_extensions_at;
use crate::grammar::chord_name_at;
use crate::grammar::chord_note_at;
use crate::grammar::chord_notes_at;
use crate::grammar::chord_quality_at;
use crate::grammar::decimal_value;
use crate::grammar::empty_sequence;
use crate::grammar::integer_at;
use crate::grammar::lemma_chord_note_advances;
use crate::grammar::lemma_sequence_advances;
use crate::grammar::lemma_sequence_item_advances;
use crate::grammar::list_chord_at;
use crate::grammar::named_chord_at;
use crate::grammar::note_length_at;
use crate::grammar::note_name_at;
use crate::grammar::number_in;
use crate::grammar::octave_at;
use crate::grammar::parse_text;
use crate::grammar::parse_tokens;
use crate::grammar::root_at;
use crate::grammar::sequence_at;
use crate::grammar::sequence_item_at;
use crate::grammar::seventh_word;
use crate::grammar::single_note_at;
use crate::grammar::tempo_at;
use crate::grammar::time_signature_at;
use crate::lexer::ascii_between;
use crate::lexer::chained;
use crate::lexer::is_ascii_byte;
use crate::lexer::is_digit;
use crate::lexer::lemma_tokens_from;
use crate::lexer::lex;
use crate::lexer::Lexeme;
use crate::lexer::tokens_of;
use crate::syntax::Accidental;
use crate::syntax::ChordExtension;
use crate::syntax::ChordName;
use crate::syntax::ChordNote;
use crate::syntax::ChordQuality;
use crate::syntax::ListChord;
use crate::syntax::NamedChord;
use crate::syntax::NoteLength;
use crate::syntax::NoteName;
use crate::syntax::Root;
use crate::syntax::SeqEvent;
use crate::syntax::Sequence;
use crate::syntax::SingleNote;
use crate::syntax::Statement;
use crate::syntax::Tempo;
use crate::syntax::TimeSignature;
use crate::syntax::Token;

verus! {

/// The line and the column of the character that starts at byte `index`,
/// both counted from 1: a line feed starts a new line, and every other
/// character takes one column.
pub open spec fn position(bytes: Seq<u8>, index: int) -> (int, int)
    decreases index,
{
    if index <= 0 {
        (1, 1)
    } else {
        let before = position(bytes, index - 1);
        let byte = bytes[index - 1];
        if byte == '\n' as u8 {
            (before.0 + 1, 1)
        } else if is_continuation_byte(byte) {
            before
        } else {
            (before.0, before.1 + 1)
        }
    }
}

/// A count as a machine integer holds it: the largest one stands for all
/// that exceed it.
pub open spec fn clip(count: int) -> usize {
    if count > usize::MAX {
        usize::MAX
    } else {
        count as usize
    }
}

/// The line and the column of a byte offset into a text, or `None` for an
/// offset beyond its end.
pub open spec fn line_column_of(bytes: Seq<u8>, index: int) -> Option<(usize, usize)> {
    if 0 <= index <= bytes.len() {
        Some((clip(position(bytes, index).0), clip(position(bytes, index).1)))
    } else {
        None
    }
}

/// Lines and columns start at 1, and an offset that a machine integer holds
/// with room to spare has a position that is exact.
pub proof fn lemma_position_bounds(bytes: Seq<u8>, index: int)
    requires
        0 <= index,
    ensures
        1 <= position(bytes, index).0 <= index + 1,
        1 <= position(bytes, index).1 <= index + 1,
    decreases index,
{
    if index > 0 {
        lemma_position_bounds(bytes, index - 1);
    }
}

/// The line and the column of a byte offset into a text, both counted from
/// 1, or `None` for an offset beyond its end.
pub fn line_column(input: &str, index: usize) -> (found: Option<(usize, usize)>)
    ensures
        found == line_column_of(input.spec_bytes(), index as int),
{
    let bytes: &[u8] = input.as_bytes();
    if index > bytes.len() {
        return None;
    }
    let mut line: usize = 1;
    let mut column: usize = 1;
    let mut i: usize = 0;
    while i < index
        invariant
            i <= index <= bytes.len(),
            line == clip(position(bytes@, i as int).0),
            column == clip(position(bytes@, i as int).1),
        decreases index - i,
    {
        proof {
            lemma_position_bounds(bytes@, i as int);
        }
        let byte: u8 = bytes[i];
        if byte == '\n' as u8 {
            if line < usize::MAX {
                line += 1;
            }
            column = 1;
        } else if !(0x80 <= byte && byte <= 0xbf) {
            if column < usize::MAX {
                column += 1;
            }
        }
        i += 1;
    }
    Some((line, column))
}

/// True where `start..end` lies inside the text and cuts no character.
pub open spec fn valid_span(bytes: Seq<u8>, start: int, end: int) -> bool {
    &&& 0 <= start <= end <= bytes.len()
    &&& is_char_boundary(bytes, start)
    &&& is_char_boundary(bytes, end)
}

/// A position with nothing but ASCII before it cuts no character.
pub proof fn lemma_ascii_boundary(bytes: Seq<u8>, index: int)
    requires
        valid_utf8(bytes),
        0 <= index <= bytes.len(),
        ascii_between(bytes, 0, index),
    ensures
        is_char_boundary(bytes, index),
    decreases index,
{
    if index > 0 {
        let rest = pop_first_scalar(bytes);
        assert(is_ascii_byte(bytes[0]));
        assert(length_of_first_scalar(bytes) == 1);
        assert forall|i: int| 0 <= i < index - 1 implies is_ascii_byte(
            #[trigger] rest[i],
        ) by {
            assert(rest[i] == bytes[i + 1]);
        }
        lemma_ascii_boundary(rest, index - 1);
    }
}

/// The part of a text between two places that cut no character.
pub fn substring<'a>(text: &'a str, start: usize, end: usize) -> (part: &'a str)
    requires
        valid_span(text.spec_bytes(), start as int, end as int),
    ensures
        part.spec_bytes() == text.spec_bytes().subrange(start as int, end as int),
{
    let (head, _) = text.split_at(end);
    proof {
        let whole = text.spec_bytes();
        let front = head.spec_bytes();
        encode_utf8_valid_utf8(text@);
        encode_utf8_valid_utf8(head@);
        assert(front.len() == end);
        if start < end {
            assert(front[start as int] == whole[start as int]);
            is_char_boundary_iff_not_is_continuation_byte(whole, start as int);
            is_char_boundary_iff_not_is_continuation_byte(front, start as int);
        } else {
            is_char_boundary_start_end_of_seq(front);
        }
    }
    let (_, part) = head.split_at(start);
    assert(part.spec_bytes() =~= text.spec_bytes().subrange(start as int, end as int));
    part
}

/// Why a text is not a piece of notation.
#[derive(Debug, Clone, PartialEq, Eq)]
pub enum ParsingError {
    LexingError,
    Eoi,
    UnexpectedToken(Token),
    InvalidNoteName(String),
    InvalidNoteLength(i32),
    InvalidChordQuality(String),
    InvalidChordExtension(String),
    ParseIntError,
}

/// A parsing error as a mathematical value: the text that an error quotes
/// is the sequence of its bytes.
pub enum ParsingErrorView {
    LexingError,
    Eoi,
    UnexpectedToken(Token),
    InvalidNoteName(Seq<u8>),
    InvalidNoteLength(i32),
    InvalidChordQuality(Seq<u8>),
    InvalidChordExtension(Seq<u8>),
    ParseIntError,
}

impl View for ParsingError {
    type V = ParsingErrorView;

    open spec fn view(&self) -> ParsingErrorView {
        match self {
            ParsingError::LexingError => ParsingErrorView::LexingError,
            ParsingError::Eoi => ParsingErrorView::Eoi,
            ParsingError::UnexpectedToken(token) => ParsingErrorView::UnexpectedToken(*token),
            ParsingError::InvalidNoteName(text) => ParsingErrorView::InvalidNoteName(
                encode_utf8(text@),
            ),
            ParsingError::InvalidNoteLength(length) => ParsingErrorView::InvalidNoteLength(
                *length,
            ),
            ParsingError::InvalidChordQuality(text) => ParsingErrorView::InvalidChordQuality(
                encode_utf8(text@),
            ),
            ParsingError::InvalidChordExtension(text) => ParsingErrorView::InvalidChordExtension(
                encode_utf8(text@),
            ),
            ParsingError::ParseIntError => ParsingErrorView::ParseIntError,
        }
    }
}

/// The character of a decimal digit.
pub open spec fn digit_text(digit: int) -> Seq<char> {
    if digit == 0 {
        "0"@
    } else if digit == 1 {
        "1"@
    } else if digit == 2 {
        "2"@
    } else if digit == 3 {
        "3"@
    } else if digit == 4 {
        "4"@
    } else if digit == 5 {
        "5"@
    } else if digit == 6 {
        "6"@
    } else if digit == 7 {
        "7"@
    } else if digit == 8 {
        "8"@
    } else {
        "9"@
    }
}

/// A number as decimal digits, without leading zeros.
pub open spec fn decimal_text(number: nat) -> Seq<char>
    decreases number,
{
    if number < 10 {
        digit_text(number as int)
    } else {
        decimal_text(number / 10) + digit_text((number % 10) as int)
    }
}

/// A number as decimal digits, behind a minus sign where it is negative.
pub open spec fn signed_text(number: int) -> Seq<char> {
    if number < 0 {
        "-"@ + decimal_text((-number) as nat)
    } else {
        decimal_text(number as nat)
    }
}

impl ParsingErrorView {
    /// What the error says to the user.
    pub open spec fn message(self) -> Seq<char> {
        match self {
            ParsingErrorView::LexingError => "Lexing error"@,
            ParsingErrorView::Eoi => "Unexpected end of input"@,
            ParsingErrorView::UnexpectedToken(token) => "Unexpected token: "@ + token.spec_name(),
            ParsingErrorView::InvalidNoteName(text) => "Invalid note name: "@ + decode_utf8(text)
                + " (expected one of `ABCDEFG`)"@,
            ParsingErrorView::InvalidNoteLength(length) => "Invalid note length: "@ + signed_text(
                length as int,
            ),
            ParsingErrorView::InvalidChordQuality(text) => "Invalid chord quality: "@
                + decode_utf8(text),
            ParsingErrorView::InvalidChordExtension(text) => "Invalid chord extension: "@
                + decode_utf8(text),
            ParsingErrorView::ParseIntError => "Expected integer"@,
        }
    }
}

fn digit_str(digit: u64) -> (text: &'static str)
    requires
        digit < 10,
    ensures
        text@ == digit_text(digit as int),
{
    if digit == 0 {
        "0"
    } else if digit == 1 {
        "1"
    } else if digit == 2 {
        "2"
    } else if digit == 3 {
        "3"
    } else if digit == 4 {
        "4"
    } else if digit == 5 {
        "5"
    } else if digit == 6 {
        "6"
    } else if digit == 7 {
        "7"
    } else if digit == 8 {
        "8"
    } else {
        "9"
    }
}

/// Writes a number in decimal digits at the end of a text.
pub fn push_decimal(text: &mut String, number: u64)
    ensures
        final(text)@ == old(text)@ + decimal_text(number as nat),
    decreases number,
{
    if number >= 10 {
        push_decimal(text, number / 10);
    }
    text.append(digit_str(number % 10));
    assert(text@ =~= old(text)@ + decimal_text(number as nat));
}

impl ParsingError {
    /// What the error says to the user.
    pub fn message(&self) -> (message: String)
        ensures
            message@ == self@.message(),
    {
        broadcast use encode_utf8_decode_utf8;

        match self {
            ParsingError::LexingError => String::from_str("Lexing error"),
            ParsingError::Eoi => String::from_str("Unexpected end of input"),
            ParsingError::UnexpectedToken(token) => String::from_str("Unexpected token: ").concat(
                token.name(),
            ),
            ParsingError::InvalidNoteName(text) => String::from_str("Invalid note name: ").concat(
                text.as_str(),
            ).concat(" (expected one of `ABCDEFG`)"),
            ParsingError::InvalidNoteLength(length) => {
                let mut message = String::from_str("Invalid note length: ");
                if *length < 0 {
                    message.append("-");
                    push_decimal(&mut message, (-(*length as i64)) as u64);
                    assert(message@ =~= "Invalid note length: "@ + signed_text(*length as int));
                } else {
                    push_decimal(&mut message, *length as u64);
                }
                message
            },
            ParsingError::InvalidChordQuality(text) => String::from_str(
                "Invalid chord quality: ",
            ).concat(text.as_str()),
            ParsingError::InvalidChordExtension(text) => String::from_str(
                "Invalid chord extension: ",
            ).concat(text.as_str()),
            ParsingError::ParseIntError => String::from_str("Expected integer"),
        }
    }
}

/// A parsing error with the place in the text that it points at, as a
/// mathematical value.
pub struct SpannedParsingErrorView {
    pub source: Seq<u8>,
    pub start: int,
    pub end: int,
    pub line: int,
    pub column: int,
    pub error: ParsingErrorView,
}

impl SpannedParsingErrorView {
    /// What the error says to the user: the line and the column that it
    /// points at, the text that stands there, and what is wrong with it.
    pub open spec fn message(self) -> Seq<char> {
        "Parsing error at "@ + decimal_text(self.line as nat) + ":"@ + decimal_text(
            self.column as nat,
        ) + " (`"@ + decode_utf8(self.source.subrange(self.start, self.end)) + "`): "@
            + self.error.message()
    }
}

/// The error that points at the bytes `start..end` of a text: its line and
/// column are those of `start`.
pub open spec fn spanned_error(
    error: ParsingErrorView,
    source: Seq<u8>,
    start: int,
    end: int,
) -> SpannedParsingErrorView {
    SpannedParsingErrorView {
        source,
        start,
        end,
        line: clip(position(source, start).0) as int,
        column: clip(position(source, start).1) as int,
        error,
    }
}

/// A parsing error with the place in the text that it points at.
#[derive(Debug, PartialEq, Eq)]
pub struct SpannedParsingError {
    input: String,
    start: usize,
    end: usize,
    line: usize,
    column: usize,
    error: ParsingError,
}

impl View for SpannedParsingError {
    type V = SpannedParsingErrorView;

    closed spec fn view(&self) -> SpannedParsingErrorView {
        SpannedParsingErrorView {
            source: encode_utf8(self.input@),
            start: self.start as int,
            end: self.end as int,
            line: self.line as int,
            column: self.column as int,
            error: self.error@,
        }
    }
}

impl ParsingError {
    /// The error that points at the bytes `span` of `input`.
    pub fn spanned(self, input: &str, span: Range<usize>) -> (error: SpannedParsingError)
        requires
            valid_span(input.spec_bytes(), span.start as int, span.end as int),
        ensures
            error@ == spanned_error(
                self@,
                input.spec_bytes(),
                span.start as int,
                span.end as int,
            ),
    {
        let (line, column): (usize, usize) = match line_column(input, span.start) {
            Some(place) => place,
            None => unreached(),
        };
        SpannedParsingError {
            input: input.to_owned(),
            start: span.start,
            end: span.end,
            line,
            column,
            error: self,
        }
    }

    /// The error that points at a token.
    pub fn spanned_from_token(self, token: &SpannedToken) -> (error: SpannedParsingError)
        ensures
            error@ == spanned_error(self@, token@.source, token@.start, token@.end),
    {
        proof {
            use_type_invariant(token);
        }
        self.spanned(token.input, token.start..token.end)
    }
}

impl SpannedParsingError {
    #[verifier::type_invariant]
    spec fn well_formed(self) -> bool {
        &&& valid_span(encode_utf8(self.input@), self.start as int, self.end as int)
        &&& self.line == clip(position(encode_utf8(self.input@), self.start as int).0)
        &&& self.column == clip(position(encode_utf8(self.input@), self.start as int).1)
    }

    /// The text that the error points at.
    pub fn slice(&self) -> (text: &str)
        ensures
            text.spec_bytes() == self@.source.subrange(self@.start, self@.end),
    {
        proof {
            use_type_invariant(self);
        }
        substring(self.input.as_str(), self.start, self.end)
    }

    /// What the error says to the user: the line and the column that it
    /// points at, the text that stands there, and what is wrong with it.
    pub fn message(&self) -> (message: String)
        ensures
            message@ == self@.message(),
    {
        broadcast use encode_utf8_decode_utf8;

        let mut message = String::from_str("Parsing error at ");
        push_decimal(&mut message, self.line as u64);
        message.append(":");
        push_decimal(&mut message, self.column as u64);
        message.append(" (`");
        message.append(self.slice());
        message.append("`): ");
        let reason = self.error.message();
        message.append(reason.as_str());
        message
    }

    /// The whole text that the error was found in.
    pub fn input(&self) -> (text: &str)
        ensures
            text.spec_bytes() == self@.source,
    {
        self.input.as_str()
    }

    /// The bytes of the text that the error points at: they lie inside the
    /// text and cut no character, and the line and the column of the error
    /// are those of the first of them.
    pub fn span(&self) -> (span: Range<usize>)
        ensures
            span.start == self@.start,
            span.end == self@.end,
            valid_span(self@.source, self@.start, self@.end),
            self@ == spanned_error(self@.error, self@.source, self@.start, self@.end),
    {
        proof {
            use_type_invariant(self);
        }
        self.start..self.end
    }

    /// The line of the first character that the error points at, from 1.
    pub fn line(&self) -> (line: usize)
        ensures
            line == self@.line,
    {
        self.line
    }

    /// The column of the first character that the error points at, from 1.
    pub fn column(&self) -> (column: usize)
        ensures
            column == self@.column,
    {
        self.column
    }

    pub fn error(&self) -> (error: &ParsingError)
        ensures
            error@ == self@.error,
    {
        &self.error
    }

    pub fn unexpected_token(token: &SpannedToken) -> (error: Self)
        ensures
            error@ == spanned_error(
                ParsingErrorView::UnexpectedToken(token@.token),
                token@.source,
                token@.start,
                token@.end,
            ),
    {
        ParsingError::UnexpectedToken(token.token).spanned_from_token(token)
    }
}

/// A token with its place in a text, as a mathematical value.
pub struct SpannedTokenView {
    pub source: Seq<u8>,
    pub start: int,
    pub end: int,
    pub token: Token,
}

impl SpannedTokenView {
    /// The bytes that the token spans.
    pub open spec fn text(self) -> Seq<u8> {
        self.source.subrange(self.start, self.end)
    }
}

/// A token with its place in the text it was read from.
#[derive(Debug, Clone, Copy)]
pub struct SpannedToken<'i> {
    input: &'i str,
    start: usize,
    end: usize,
    token: Token,
}

impl<'i> View for SpannedToken<'i> {
    type V = SpannedTokenView;

    closed spec fn view(&self) -> SpannedTokenView {
        SpannedTokenView {
            source: self.input.spec_bytes(),
            start: self.start as int,
            end: self.end as int,
            token: self.token,
        }
    }
}

impl<'i> SpannedToken<'i> {
    #[verifier::type_invariant]
    spec fn well_formed(self) -> bool {
        valid_span(self.input.spec_bytes(), self.start as int, self.end as int)
    }

    /// The text of the token.
    pub fn slice(&self) -> (text: &'i str)
        ensures
            text.spec_bytes() == self@.text(),
    {
        proof {
            use_type_invariant(self);
        }
        substring(self.input, self.start, self.end)
    }

    pub fn token(&self) -> (token: Token)
        ensures
            token == self@.token,
    {
        self.token
    }

    /// The bytes of the text that the token spans: they lie inside the text
    /// and cut no character.
    pub fn span(&self) -> (span: Range<usize>)
        ensures
            span.start == self@.start,
            span.end == self@.end,
            valid_span(self@.source, self@.start, self@.end),
    {
        proof {
            use_type_invariant(self);
        }
        self.start..self.end
    }

    /// The line and the column of the token's first character.
    pub fn start_line_column(&self) -> (place: (usize, usize))
        ensures
            Some(place) == line_column_of(self@.source, self@.start),
    {
        proof {
            use_type_invariant(self);
        }
        match line_column(self.input, self.start) {
            Some(place) => place,
            None => unreached(),
        }
    }

    /// The line and the column of the first character after the token.
    pub fn end_line_column(&self) -> (place: (usize, usize))
        ensures
            Some(place) == line_column_of(self@.source, self@.end),
    {
        proof {
            use_type_invariant(self);
        }
        match line_column(self.input, self.end) {
            Some(place) => place,
            None => unreached(),
        }
    }
}

/// True where `start..end` is exactly the character that starts at `start`.
pub open spec fn is_char_end(bytes: Seq<u8>, start: int, end: int) -> bool {
    &&& start < end <= bytes.len()
    &&& is_char_boundary(bytes, end)
    &&& forall|k: int| start < k < end ==> !is_char_boundary(bytes, k)
}

/// The end of the character that starts at `start`.
pub open spec fn char_end(bytes: Seq<u8>, start: int) -> int {
    choose|end: int| is_char_end(bytes, start, end)
}

/// A character has one end.
pub proof fn lemma_char_end(bytes: Seq<u8>, start: int, end: int)
    requires
        is_char_end(bytes, start, end),
    ensures
        char_end(bytes, start) == end,
{
    let chosen = char_end(bytes, start);
    assert(is_char_end(bytes, start, chosen));
}

/// The lexemes of a text as tokens with their place in it.
pub open spec fn spanned_tokens(source: Seq<u8>, lexemes: Seq<Lexeme>) -> Seq<SpannedTokenView> {
    lexemes.map_values(
        |lexeme: Lexeme|
            SpannedTokenView {
                source,
                start: lexeme.start as int,
                end: lexeme.end as int,
                token: lexeme.kind,
            },
    )
}

pub open spec fn token_views<'i>(tokens: Seq<SpannedToken<'i>>) -> Seq<SpannedTokenView> {
    tokens.map_values(|token: SpannedToken<'i>| token@)
}

/// The tokens of a text, or the lexing error that points at the first
/// character from which no token starts.
pub open spec fn tokenized(source: Seq<u8>) -> Result<
    Seq<SpannedTokenView>,
    SpannedParsingErrorView,
> {
    match tokens_of(source) {
        Ok(lexemes) => Ok(spanned_tokens(source, lexemes)),
        Err(stop) => Err(
            spanned_error(ParsingErrorView::LexingError, source, stop, char_end(source, stop)),
        ),
    }
}

/// The tokens of a text, or the lexing error that points at the first
/// character from which no token starts.
pub fn tokenize<'i>(input: &'i str) -> (tokens: Result<Vec<SpannedToken<'i>>, SpannedParsingError>)
    ensures
        match tokenized(input.spec_bytes()) {
            Ok(expected) => tokens matches Ok(found) && token_views(found@) == expected,
            Err(error) => tokens matches Err(found) && found@ == error,
        },
{
    let bytes: &[u8] = input.as_bytes();
    proof {
        encode_utf8_valid_utf8(input@);
        lemma_tokens_from(bytes@, 0);
    }
    match lex(bytes) {
        Ok(lexemes) => {
            let mut tokens: Vec<SpannedToken<'i>> = Vec::new();
            let mut i: usize = 0;
            while i < lexemes.len()
                invariant
                    i <= lexemes.len(),
                    bytes@ == input.spec_bytes(),
                    valid_utf8(bytes@),
                    tokens_of(bytes@) == Ok::<Seq<Lexeme>, int>(lexemes@),
                    chained(lexemes@, 0, bytes@.len() as int),
                    ascii_between(bytes@, 0, bytes@.len() as int),
                    tokens@.len() == i,
                    token_views(tokens@) == spanned_tokens(bytes@, lexemes@.subrange(0, i as int)),
                decreases lexemes.len() - i,
            {
                let lexeme: Lexeme = lexemes[i];
                proof {
                    lemma_ascii_boundary(bytes@, lexeme.start as int);
                    lemma_ascii_boundary(bytes@, lexeme.end as int);
                }
                let token = SpannedToken {
                    input,
                    start: lexeme.start,
                    end: lexeme.end,
                    token: lexeme.kind,
                };
                let ghost before = tokens@;
                tokens.push(token);
                i += 1;
                assert forall|j: int| 0 <= j < i implies token_views(tokens@)[j] == spanned_tokens(
                    bytes@,
                    lexemes@.subrange(0, i as int),
                )[j] by {
                    if j < i - 1 {
                        assert(tokens@[j] == before[j]);
                        assert(token_views(before)[j] == spanned_tokens(
                            bytes@,
                            lexemes@.subrange(0, i - 1),
                        )[j]);
                        assert(lexemes@.subrange(0, i as int)[j] == lexemes@.subrange(0, i - 1)[j]);
                    }
                }
                assert(token_views(tokens@) =~= spanned_tokens(
                    bytes@,
                    lexemes@.subrange(0, i as int),
                ));
            }
            assert(lexemes@.subrange(0, i as int) =~= lexemes@);
            Ok(tokens)
        },
        Err(stop) => {
            proof {
                lemma_ascii_boundary(bytes@, stop as int);
                is_char_boundary_start_end_of_seq(bytes@);
            }
            let mut end: usize = stop + 1;
            while end < input.len() && !input.is_char_boundary(end)
                invariant
                    stop < end <= bytes@.len(),
                    bytes@ == input.spec_bytes(),
                    valid_utf8(bytes@),
                    is_char_boundary(bytes@, bytes@.len() as int),
                    forall|k: int| stop < k < end ==> !is_char_boundary(bytes@, k),
                decreases bytes@.len() - end,
            {
                end += 1;
            }
            proof {
                lemma_char_end(bytes@, stop as int, end as int);
            }
            Err(ParsingError::LexingError.spanned(input, stop..end))
        },
    }
}

/// The error that points at a token.
pub open spec fn error_at(error: ParsingErrorView, token: SpannedTokenView) -> SpannedParsingErrorView {
    spanned_error(error, token.source, token.start, token.end)
}

/// The error of a token that may not stand where it stands.
pub open spec fn unexpected(token: SpannedTokenView) -> SpannedParsingErrorView {
    error_at(ParsingErrorView::UnexpectedToken(token.token), token)
}

/// The error of a text that ends too early: it points at the first token.
pub open spec fn end_of_input(tokens: Seq<SpannedTokenView>) -> SpannedParsingErrorView
    recommends
        tokens.len() > 0,
{
    error_at(ParsingErrorView::Eoi, tokens[0])
}

/// The token at a position, or the error of the end of the input.
pub open spec fn peek_at(tokens: Seq<SpannedTokenView>, pos: int) -> Result<
    SpannedTokenView,
    SpannedParsingErrorView,
> {
    if 0 <= pos < tokens.len() {
        Ok(tokens[pos])
    } else {
        Err(end_of_input(tokens))
    }
}

/// The token at a position where it is of the expected kind, or the error
/// that says what stands there instead.
pub open spec fn expect_at(tokens: Seq<SpannedTokenView>, pos: int, expected: Token) -> Result<
    SpannedTokenView,
    SpannedParsingErrorView,
> {
    match peek_at(tokens, pos) {
        Ok(token) => if token.token == expected {
            Ok(token)
        } else {
            Err(unexpected(token))
        },
        Err(error) => Err(error),
    }
}

/// The position behind the whitespace token at a position, if one stands
/// there.
pub open spec fn skip_whitespace_at(tokens: Seq<SpannedTokenView>, pos: int) -> int {
    if 0 <= pos < tokens.len() && tokens[pos].token == Token::Whitespace {
        pos + 1
    } else {
        pos
    }
}

/// A token stream as a mathematical value: the tokens, the position of the
/// cursor among them, and the saved positions, oldest first.
pub struct TokenStreamView {
    pub tokens: Seq<SpannedTokenView>,
    pub current: int,
    pub checkpoints: Seq<usize>,
}

/// A cursor over the tokens of a text, with a stack of saved positions to
/// go back to.
pub struct TokenStream<'t, 'i> {
    tokens: &'t [SpannedToken<'i>],
    current: usize,
    checkpoints: Vec<usize>,
}

impl<'t, 'i> View for TokenStream<'t, 'i> {
    type V = TokenStreamView;

    closed spec fn view(&self) -> TokenStreamView {
        TokenStreamView {
            tokens: token_views(self.tokens@),
            current: self.current as int,
            checkpoints: self.checkpoints@,
        }
    }
}

impl<'t, 'i> TokenStream<'t, 'i> {
    #[verifier::type_invariant]
    spec fn well_formed(self) -> bool {
        &&& self.current <= self.tokens@.len()
        &&& forall|i: int|
            0 <= i < self.checkpoints@.len() ==> #[trigger] self.checkpoints@[i]
                <= self.tokens@.len()
    }

    pub fn new(tokens: &'t [SpannedToken<'i>]) -> (stream: Self)
        ensures
            stream@ == (TokenStreamView {
                tokens: token_views(tokens@),
                current: 0,
                checkpoints: Seq::empty(),
            }),
    {
        Self { tokens, current: 0, checkpoints: Vec::new() }
    }

    /// Returns the current token and advances the stream.
    pub fn bump(&mut self) -> (token: ParseResult<SpannedToken<'i>>)
        requires
            old(self)@.tokens.len() > 0,
        ensures
            0 <= old(self)@.current <= old(self)@.tokens.len(),
            match peek_at(old(self)@.tokens, old(self)@.current) {
                Ok(expected) => token matches Ok(found) && found@ == expected && final(self)@ == (
                TokenStreamView { current: old(self)@.current + 1, ..old(self)@ }),
                Err(error) => token matches Err(found) && found@ == error && final(self)@ == old(
                    self,
                )@,
            },
    {
        proof {
            use_type_invariant(&*self);
        }
        if self.current >= self.tokens.len() {
            return Err(ParsingError::Eoi.spanned_from_token(&self.tokens[0]));
        }
        let token = self.tokens[self.current];
        self.current += 1;
        Ok(token)
    }

    /// Returns the current token without advancing the stream.
    pub fn peek(&self) -> (token: ParseResult<&SpannedToken<'i>>)
        requires
            self@.tokens.len() > 0,
        ensures
            0 <= self@.current <= self@.tokens.len(),
            match peek_at(self@.tokens, self@.current) {
                Ok(expected) => token matches Ok(found) && found@ == expected,
                Err(error) => token matches Err(found) && found@ == error,
            },
    {
        proof {
            use_type_invariant(self);
        }
        if self.current >= self.tokens.len() {
            return Err(ParsingError::Eoi.spanned_from_token(&self.tokens[0]));
        }
        Ok(&self.tokens[self.current])
    }

    /// Bumps the current token and expects it to be of the given type.
    /// If the token is not of the expected type, it backtracks and returns an error.
    pub fn expect(&mut self, expected: Token) -> (token: ParseResult<SpannedToken<'i>>)
        requires
            old(self)@.tokens.len() > 0,
        ensures
            0 <= old(self)@.current <= old(self)@.tokens.len(),
            match expect_at(old(self)@.tokens, old(self)@.current, expected) {
                Ok(wanted) => token matches Ok(found) && found@ == wanted && final(self)@ == (
                TokenStreamView { current: old(self)@.current + 1, ..old(self)@ }),
                Err(error) => token matches Err(found) && found@ == error && final(self)@ == old(
                    self,
                )@,
            },
    {
        let token = match self.bump() {
            Ok(token) => token,
            Err(error) => {
                return Err(error);
            },
        };
        if token.token == expected {
            Ok(token)
        } else {
            proof {
                use_type_invariant(&*self);
            }
            self.current -= 1;  // backtrack
            Err(ParsingError::UnexpectedToken(token.token).spanned_from_token(&token))
        }
    }

    /// Advances the stream if the current token is a whitespace token, and discards it.
    pub fn skip_whitespace(&mut self)
        ensures
            final(self)@ == (TokenStreamView {
                current: skip_whitespace_at(old(self)@.tokens, old(self)@.current),
                ..old(self)@
            }),
    {
        proof {
            use_type_invariant(&*self);
        }
        if self.current < self.tokens.len() {
            if self.tokens[self.current].token == Token::Whitespace {
                self.current += 1;
            }
        }
    }

    /// Saves the current position in the stream and returns the current checkpoint depth.
    pub fn push_checkpoint(&mut self) -> (depth: usize)
        ensures
            final(self)@ == (TokenStreamView {
                checkpoints: old(self)@.checkpoints.push(old(self)@.current as usize),
                ..old(self)@
            }),
            depth == final(self)@.checkpoints.len(),
    {
        proof {
            use_type_invariant(&*self);
        }
        let mut checkpoints: Vec<usize> = Vec::new();
        core::mem::swap(&mut self.checkpoints, &mut checkpoints);
        checkpoints.push(self.current);
        core::mem::swap(&mut self.checkpoints, &mut checkpoints);
        self.checkpoints.len()
    }

    /// Resets the current position to the last checkpoint and returns the current checkpoint depth.
    pub fn pop_checkpoint(&mut self) -> (depth: usize)
        ensures
            old(self)@.checkpoints.len() == 0 ==> final(self)@ == old(self)@,
            old(self)@.checkpoints.len() > 0 ==> final(self)@ == (TokenStreamView {
                current: old(self)@.checkpoints.last() as int,
                checkpoints: old(self)@.checkpoints.drop_last(),
                ..old(self)@
            }),
            depth == final(self)@.checkpoints.len(),
    {
        proof {
            use_type_invariant(&*self);
        }
        let mut checkpoints: Vec<usize> = Vec::new();
        core::mem::swap(&mut self.checkpoints, &mut checkpoints);
        let last: Option<usize> = checkpoints.pop();
        core::mem::swap(&mut self.checkpoints, &mut checkpoints);
        if let Some(checkpoint) = last {
            self.current = checkpoint;
        }
        self.checkpoints.len()
    }

    /// Resets the current position to the given checkpoint.
    pub fn reset_to_checkpoint(&mut self, checkpoint: usize)
        ensures
            checkpoint >= old(self)@.checkpoints.len() ==> final(self)@ == old(self)@,
            checkpoint < old(self)@.checkpoints.len() ==> final(self)@ == (TokenStreamView {
                current: old(self)@.checkpoints[checkpoint as int] as int,
                ..old(self)@
            }),
    {
        proof {
            use_type_invariant(&*self);
        }
        if checkpoint < self.checkpoints.len() {
            self.current = self.checkpoints[checkpoint];
        }
    }

    /// Resets the current position to the given checkpoint and removes it and all checkpoints
    /// after it. Returns the current checkpoint depth.
    pub fn pop_to_checkpoint(&mut self, checkpoint: usize) -> (depth: usize)
        ensures
            checkpoint >= old(self)@.checkpoints.len() ==> final(self)@ == old(self)@,
            checkpoint < old(self)@.checkpoints.len() ==> final(self)@ == (TokenStreamView {
                current: old(self)@.checkpoints[checkpoint as int] as int,
                checkpoints: old(self)@.checkpoints.subrange(0, checkpoint as int),
                ..old(self)@
            }),
            depth == final(self)@.checkpoints.len(),
    {
        proof {
            use_type_invariant(&*self);
        }
        if checkpoint < self.checkpoints.len() {
            self.current = self.checkpoints[checkpoint];
            let mut checkpoints: Vec<usize> = Vec::new();
            core::mem::swap(&mut self.checkpoints, &mut checkpoints);
            checkpoints.truncate(checkpoint);
            core::mem::swap(&mut self.checkpoints, &mut checkpoints);
        }
        self.checkpoints.len()
    }

    /// Returns the current checkpoint depth.
    pub fn checkpoint_depth(&self) -> (depth: usize)
        ensures
            depth == self@.checkpoints.len(),
    {
        self.checkpoints.len()
    }

    /// Returns the current position in the stream.
    pub fn current_position(&self) -> (position: usize)
        ensures
            position == self@.current,
            position <= self@.tokens.len(),
    {
        proof {
            use_type_invariant(self);
        }
        self.current
    }

    pub fn slice(&self, range: Range<usize>) -> (tokens: &[SpannedToken<'i>])
        requires
            range.start <= range.end <= self@.tokens.len(),
        ensures
            token_views(tokens@) == self@.tokens.subrange(range.start as int, range.end as int),
    {
        let tokens = slice_subrange(self.tokens, range.start, range.end);
        assert(token_views(tokens@) =~= self@.tokens.subrange(
            range.start as int,
            range.end as int,
        ));
        tokens
    }

    pub fn remaining(&self) -> (tokens: &[SpannedToken<'i>])
        ensures
            0 <= self@.current <= self@.tokens.len(),
            token_views(tokens@) == self@.tokens.subrange(
                self@.current,
                self@.tokens.len() as int,
            ),
    {
        proof {
            use_type_invariant(self);
        }
        let tokens = slice_subrange(self.tokens, self.current, self.tokens.len());
        assert(token_views(tokens@) =~= self@.tokens.subrange(
            self@.current,
            self@.tokens.len() as int,
        ));
        tokens
    }

    pub fn is_eoi(&self) -> (ended: bool)
        ensures
            ended == (self@.current >= self@.tokens.len()),
    {
        self.current >= self.tokens.len()
    }
}

pub type ParseResult<T> = Result<T, SpannedParsingError>;

proof fn lemma_decimal_prefix(text: Seq<u8>, i: int)
    requires
        all_digits(text),
        0 <= i <= text.len(),
    ensures
        0 <= decimal_value(text.subrange(0, i)) <= decimal_value(text),
    decreases text.len(),
{
    if i == text.len() {
        assert(text.subrange(0, i) =~= text);
        if i > 0 {
            lemma_decimal_prefix(text.drop_last(), i - 1);
            assert(text.drop_last().subrange(0, i - 1) =~= text.drop_last());
        }
    } else {
        lemma_decimal_prefix(text.drop_last(), i);
        assert(text.drop_last().subrange(0, i) =~= text.subrange(0, i));
        lemma_decimal_prefix(text.drop_last(), text.len() - 1);
        assert(text.drop_last().subrange(0, text.len() - 1) =~= text.drop_last());
    }
}

/// The number that a text writes in decimal digits, where it writes one
/// from `min` to `max`.
pub fn parse_number(text: &[u8], min: u32, max: u32) -> (value: Option<u32>)
    ensures
        value == (match number_in(text@, min as int, max as int) {
            Some(number) => Some(number as u32),
            None => None,
        }),
{
    if text.len() == 0 {
        return None;
    }
    let mut value: u64 = 0;
    let mut i: usize = 0;
    while i < text.len()
        invariant
            i <= text.len(),
            all_digits(text@.subrange(0, i as int)),
            value == decimal_value(text@.subrange(0, i as int)),
            value <= max,
        decreases text.len() - i,
    {
        let byte: u8 = text[i];
        if byte < '0' as u8 || byte > '9' as u8 {
            return None;
        }
        proof {
            assert(text@.subrange(0, i + 1).drop_last() =~= text@.subrange(0, i as int));
            assert forall|j: int| 0 <= j < i + 1 implies is_digit(
                #[trigger] text@.subrange(0, i + 1)[j],
            ) by {
                if j < i {
                    assert(text@.subrange(0, i + 1)[j] == text@.subrange(0, i as int)[j]);
                }
            }
        }
        value = value * 10 + (byte - '0' as u8) as u64;
        i += 1;
        if value > max as u64 {
            proof {
                if all_digits(text@) {
                    lemma_decimal_prefix(text@, i as int);
                }
            }
            return None;
        }
    }
    assert(text@.subrange(0, i as int) =~= text@);
    if value < min as u64 {
        None
    } else {
        Some(value as u32)
    }
}

/// True where a stream is as it was but for its cursor, which stands at
/// `next`.
pub open spec fn follows(before: TokenStreamView, after: TokenStreamView, next: int) -> bool {
    after == (TokenStreamView { current: next, ..before })
}

fn parse_integer(token_stream: &mut TokenStream, min: u32, max: u32, error: ParsingError) -> (parsed:
    ParseResult<u32>)
    requires
        old(token_stream)@.tokens.len() > 0,
    ensures
        final(token_stream)@.tokens == old(token_stream)@.tokens,
        match integer_at(
            old(token_stream)@.tokens,
            old(token_stream)@.current,
            min as int,
            max as int,
            error@,
        ) {
            Ok((value, next)) => parsed matches Ok(found) && found == value && follows(
                old(token_stream)@,
                final(token_stream)@,
                next,
            ),
            Err(failure) => parsed matches Err(found) && found@ == failure,
        },
{
    let token = match token_stream.expect(Token::Number) {
        Ok(token) => token,
        Err(failure) => {
            return Err(failure);
        },
    };
    match parse_number(token.slice().as_bytes(), min, max) {
        Some(value) => Ok(value),
        None => Err(error.spanned_from_token(&token)),
    }
}

fn parse_tempo(token_stream: &mut TokenStream) -> (parsed: ParseResult<u32>)
    requires
        old(token_stream)@.tokens.len() > 0,
    ensures
        final(token_stream)@.tokens == old(token_stream)@.tokens,
        match tempo_at(old(token_stream)@.tokens, old(token_stream)@.current) {
            Ok((value, next)) => parsed matches Ok(found) && found == value && follows(
                old(token_stream)@,
                final(token_stream)@,
                next,
            ),
            Err(failure) => parsed matches Err(found) && found@ == failure,
        },
{
    parse_integer(token_stream, 0, u32::MAX, ParsingError::ParseIntError)
}

fn parse_time_signature(token_stream: &mut TokenStream) -> (parsed: ParseResult<TimeSignature>)
    requires
        old(token_stream)@.tokens.len() > 0,
    ensures
        final(token_stream)@.tokens == old(token_stream)@.tokens,
        match time_signature_at(old(token_stream)@.tokens, old(token_stream)@.current) {
            Ok((value, next)) => parsed matches Ok(found) && found == value && follows(
                old(token_stream)@,
                final(token_stream)@,
                next,
            ),
            Err(failure) => parsed matches Err(found) && found@ == failure,
        },
{
    let numerator: u32 = match parse_integer(token_stream, 1, 255, ParsingError::ParseIntError) {
        Ok(numerator) => numerator,
        Err(failure) => {
            return Err(failure);
        },
    };
    token_stream.skip_whitespace();
    let denominator: u32 = match parse_integer(token_stream, 1, 255, ParsingError::ParseIntError) {
        Ok(denominator) => denominator,
        Err(failure) => {
            return Err(failure);
        },
    };
    Ok(TimeSignature::new(numerator as u8, denominator as u8))
}

fn parse_note_name(token_stream: &mut TokenStream) -> (parsed: ParseResult<NoteName>)
    requires
        old(token_stream)@.tokens.len() > 0,
    ensures
        final(token_stream)@.tokens == old(token_stream)@.tokens,
        match note_name_at(old(token_stream)@.tokens, old(token_stream)@.current) {
            Ok((value, next)) => parsed matches Ok(found) && found == value && follows(
                old(token_stream)@,
                final(token_stream)@,
                next,
            ),
            Err(failure) => parsed matches Err(found) && found@ == failure,
        },
{
    let token = match token_stream.expect(Token::NoteName) {
        Ok(token) => token,
        Err(failure) => {
            return Err(failure);
        },
    };
    match NoteName::from_bytes(token.slice().as_bytes()) {
        Some(name) => Ok(name),
        None => Err(
            ParsingError::InvalidNoteName(token.slice().to_owned()).spanned_from_token(&token),
        ),
    }
}

fn parse_accidental(token_stream: &mut TokenStream) -> (parsed: ParseResult<Accidental>)
    requires
        old(token_stream)@.tokens.len() > 0,
    ensures
        final(token_stream)@.tokens == old(token_stream)@.tokens,
        match accidental_at(old(token_stream)@.tokens, old(token_stream)@.current) {
            Ok((value, next)) => parsed matches Ok(found) && found == value && follows(
                old(token_stream)@,
                final(token_stream)@,
                next,
            ),
            Err(failure) => parsed matches Err(found) && found@ == failure,
        },
{
    let kind: Token = match token_stream.peek() {
        Ok(token) => token.token,
        Err(failure) => {
            return Err(failure);
        },
    };
    let accidental = match kind {
        Token::Sharp => {
            let _ = token_stream.bump();
            Accidental::Sharp
        },
        Token::Flat => {
            let _ = token_stream.bump();
            Accidental::Flat
        },
        _ => Accidental::Natural,
    };
    Ok(accidental)
}

fn parse_octave_number(token_stream: &mut TokenStream) -> (parsed: ParseResult<i32>)
    requires
        old(token_stream)@.tokens.len() > 0,
    ensures
        final(token_stream)@.tokens == old(token_stream)@.tokens,
        match octave_at(old(token_stream)@.tokens, old(token_stream)@.current) {
            Ok((value, next)) => parsed matches Ok(found) && found == value && follows(
                old(token_stream)@,
                final(token_stream)@,
                next,
            ),
            Err(failure) => parsed matches Err(found) && found@ == failure,
        },
{
    match parse_integer(token_stream, 0, 0x7fff_ffff, ParsingError::ParseIntError) {
        Ok(octave) => Ok(octave as i32),
        Err(failure) => Err(failure),
    }
}

fn parse_note_length(token_stream: &mut TokenStream) -> (parsed: ParseResult<NoteLength>)
    requires
        old(token_stream)@.tokens.len() > 0,
    ensures
        final(token_stream)@.tokens == old(token_stream)@.tokens,
        match note_length_at(old(token_stream)@.tokens, old(token_stream)@.current) {
            Ok((value, next)) => parsed matches Ok(found) && found == value && follows(
                old(token_stream)@,
                final(token_stream)@,
                next,
            ),
            Err(failure) => parsed matches Err(found) && found@ == failure,
        },
{
    let first: SpannedToken = match token_stream.peek() {
        Ok(token) => *token,
        Err(failure) => {
            return Err(failure);
        },
    };
    match first.token {
        Token::Colon => {
            let _ = token_stream.bump();
            let token = match token_stream.expect(Token::Number) {
                Ok(token) => token,
                Err(failure) => {
                    return Err(failure);
                },
            };
            match NoteLength::from_bytes(token.slice().as_bytes()) {
                Some(length) => Ok(length),
                None => {
                    let written: i32 = match parse_number(
                        token.slice().as_bytes(),
                        0,
                        0x7fff_ffff,
                    ) {
                        Some(number) => number as i32,
                        None => 0,
                    };
                    Err(ParsingError::InvalidNoteLength(written).spanned_from_token(&token))
                },
            }
        },
        Token::Bar => {
            let _ = token_stream.bump();
            match parse_integer(token_stream, 0, u32::MAX, ParsingError::InvalidNoteLength(0)) {
                Ok(bars) => Ok(NoteLength::Bars(bars)),
                Err(failure) => Err(failure),
            }
        },
        _ => Err(ParsingError::UnexpectedToken(first.token).spanned_from_token(&first)),
    }
}

fn parse_chord_note(token_stream: &mut TokenStream) -> (parsed: ParseResult<ChordNote>)
    requires
        old(token_stream)@.tokens.len() > 0,
    ensures
        final(token_stream)@.tokens == old(token_stream)@.tokens,
        match chord_note_at(old(token_stream)@.tokens, old(token_stream)@.current) {
            Ok((value, next)) => parsed matches Ok(found) && found == value && follows(
                old(token_stream)@,
                final(token_stream)@,
                next,
            ),
            Err(failure) => parsed matches Err(found) && found@ == failure,
        },
{
    let note_name = match parse_note_name(token_stream) {
        Ok(note_name) => note_name,
        Err(failure) => {
            return Err(failure);
        },
    };
    let accidental = match parse_accidental(token_stream) {
        Ok(accidental) => accidental,
        Err(failure) => {
            return Err(failure);
        },
    };
    let octave_number = match parse_octave_number(token_stream) {
        Ok(octave_number) => octave_number,
        Err(failure) => {
            return Err(failure);
        },
    };
    Ok(ChordNote { note_name, octave_number, accidental })
}

fn parse_single_note(token_stream: &mut TokenStream) -> (parsed: ParseResult<SingleNote>)
    requires
        old(token_stream)@.tokens.len() > 0,
    ensures
        final(token_stream)@.tokens == old(token_stream)@.tokens,
        match single_note_at(old(token_stream)@.tokens, old(token_stream)@.current) {
            Ok((value, next)) => parsed matches Ok(found) && found == value && follows(
                old(token_stream)@,
                final(token_stream)@,
                next,
            ),
            Err(failure) => parsed matches Err(found) && found@ == failure,
        },
{
    let note = match parse_chord_note(token_stream) {
        Ok(note) => note,
        Err(failure) => {
            return Err(failure);
        },
    };
    let note_length = match parse_note_length(token_stream) {
        Ok(note_length) => note_length,
        Err(failure) => {
            return Err(failure);
        },
    };
    Ok(
        SingleNote {
            note_name: note.note_name,
            octave_number: note.octave_number,
            note_length,
            accidental: note.accidental,
        },
    )
}

fn parse_chord_notes(token_stream: &mut TokenStream) -> (parsed: ParseResult<Vec<ChordNote>>)
    requires
        old(token_stream)@.tokens.len() > 0,
    ensures
        final(token_stream)@.tokens == old(token_stream)@.tokens,
        match chord_notes_at(
            old(token_stream)@.tokens,
            old(token_stream)@.current,
            Seq::empty(),
        ) {
            Ok((value, next)) => parsed matches Ok(found) && found@ == value && follows(
                old(token_stream)@,
                final(token_stream)@,
                next,
            ),
            Err(failure) => parsed matches Err(found) && found@ == failure,
        },
{
    let mut notes: Vec<ChordNote> = Vec::new();
    proof {
        use_type_invariant(&*token_stream);
    }
    loop
        invariant
            token_stream@.tokens.len() > 0,
            0 <= token_stream@.current <= token_stream@.tokens.len(),
            follows(old(token_stream)@, token_stream@, token_stream@.current),
            chord_notes_at(old(token_stream)@.tokens, old(token_stream)@.current, Seq::empty())
                == chord_notes_at(token_stream@.tokens, token_stream@.current, notes@),
        decreases token_stream@.tokens.len() - token_stream@.current,
    {
        let kind: Token = match token_stream.peek() {
            Ok(token) => token.token,
            Err(failure) => {
                return Err(failure);
            },
        };
        match kind {
            Token::Whitespace => {
                let _ = token_stream.bump();
            },
            Token::CBracket => {
                let _ = token_stream.bump();
                return Ok(notes);
            },
            _ => {
                proof {
                    lemma_chord_note_advances(token_stream@.tokens, token_stream@.current);
                }
                let note = match parse_chord_note(token_stream) {
                    Ok(note) => note,
                    Err(failure) => {
                        return Err(failure);
                    },
                };
                notes.push(note);
            },
        }
    }
}

fn parse_list_chord(token_stream: &mut TokenStream) -> (parsed: ParseResult<ListChord>)
    requires
        old(token_stream)@.tokens.len() > 0,
    ensures
        final(token_stream)@.tokens == old(token_stream)@.tokens,
        match list_chord_at(old(token_stream)@.tokens, old(token_stream)@.current) {
            Ok((value, next)) => parsed matches Ok(found) && found@ == value && follows(
                old(token_stream)@,
                final(token_stream)@,
                next,
            ),
            Err(failure) => parsed matches Err(found) && found@ == failure,
        },
{
    let notes = match parse_chord_notes(token_stream) {
        Ok(notes) => notes,
        Err(failure) => {
            return Err(failure);
        },
    };
    let note_length = match parse_note_length(token_stream) {
        Ok(note_length) => note_length,
        Err(failure) => {
            return Err(failure);
        },
    };
    Ok(ListChord { notes, note_length })
}

fn parse_chord_quality(token_stream: &mut TokenStream) -> (parsed: ParseResult<ChordQuality>)
    requires
        old(token_stream)@.tokens.len() > 0,
    ensures
        final(token_stream)@.tokens == old(token_stream)@.tokens,
        match chord_quality_at(old(token_stream)@.tokens, old(token_stream)@.current) {
            Ok((value, next)) => parsed matches Ok(found) && found == value && follows(
                old(token_stream)@,
                final(token_stream)@,
                next,
            ),
            Err(failure) => parsed matches Err(found) && found@ == failure,
        },
{
    let token = match token_stream.expect(Token::ChordQuality) {
        Ok(token) => token,
        Err(failure) => {
            return Err(failure);
        },
    };
    match ChordQuality::from_bytes(token.slice().as_bytes()) {
        Some(quality) => Ok(quality),
        None => Err(
            ParsingError::InvalidChordQuality(token.slice().to_owned()).spanned_from_token(
                &token,
            ),
        ),
    }
}

fn is_seventh(text: &[u8]) -> (seventh: bool)
    ensures
        seventh == (text@ == seventh_word()),
{
    if text.len() == 1 && text[0] == '7' as u8 {
        assert(text@ =~= seventh_word());
        true
    } else {
        false
    }
}

fn parse_chord_extensions(token_stream: &mut TokenStream) -> (parsed: ParseResult<
    Vec<ChordExtension>,
>)
    requires
        old(token_stream)@.tokens.len() > 0,
    ensures
        final(token_stream)@.tokens == old(token_stream)@.tokens,
        match chord_extensions_at(
            old(token_stream)@.tokens,
            old(token_stream)@.current,
            Seq::empty(),
        ) {
            Ok((value, next)) => parsed matches Ok(found) && found@ == value && follows(
                old(token_stream)@,
                final(token_stream)@,
                next,
            ),
            Err(failure) => parsed matches Err(found) && found@ == failure,
        },
{
    let mut extensions: Vec<ChordExtension> = Vec::new();
    proof {
        use_type_invariant(&*token_stream);
    }
    loop
        invariant
            token_stream@.tokens.len() > 0,
            0 <= token_stream@.current <= token_stream@.tokens.len(),
            follows(old(token_stream)@, token_stream@, token_stream@.current),
            chord_extensions_at(
                old(token_stream)@.tokens,
                old(token_stream)@.current,
                Seq::empty(),
            ) == chord_extensions_at(token_stream@.tokens, token_stream@.current, extensions@),
        decreases token_stream@.tokens.len() - token_stream@.current,
    {
        let token: SpannedToken = match token_stream.peek() {
            Ok(token) => *token,
            Err(failure) => {
                return Err(failure);
            },
        };
        match token.token {
            Token::Number => {
                if is_seventh(token.slice().as_bytes()) {
                    let _ = token_stream.bump();
                    extensions.push(ChordExtension::Seventh);
                } else {
                    return Ok(extensions);
                }
            },
            Token::ChordExtension => {
                let extension = match ChordExtension::from_bytes(token.slice().as_bytes()) {
                    Some(extension) => extension,
                    None => {
                        return Err(
                            ParsingError::InvalidChordExtension(
                                token.slice().to_owned(),
                            ).spanned_from_token(&token),
                        );
                    },
                };
                let _ = token_stream.bump();
                extensions.push(extension);
            },
            _ => {
                return Ok(extensions);
            },
        }
    }
}

fn parse_chord_name(token_stream: &mut TokenStream) -> (parsed: ParseResult<ChordName>)
    requires
        old(token_stream)@.tokens.len() > 0,
    ensures
        final(token_stream)@.tokens == old(token_stream)@.tokens,
        match chord_name_at(old(token_stream)@.tokens, old(token_stream)@.current) {
            Ok((value, next)) => parsed matches Ok(found) && found@ == value && follows(
                old(token_stream)@,
                final(token_stream)@,
                next,
            ),
            Err(failure) => parsed matches Err(found) && found@ == failure,
        },
{
    let root = match parse_chord_note(token_stream) {
        Ok(root) => root,
        Err(failure) => {
            return Err(failure);
        },
    };
    let quality = match parse_chord_quality(token_stream) {
        Ok(quality) => quality,
        Err(failure) => {
            return Err(failure);
        },
    };
    let extensions = match parse_chord_extensions(token_stream) {
        Ok(extensions) => extensions,
        Err(failure) => {
            return Err(failure);
        },
    };
    Ok(
        ChordName {
            root: root.note_name,
            root_octave_number: root.octave_number,
            root_accidental: root.accidental,
            quality,
            extensions,
        },
    )
}

fn parse_named_chord(token_stream: &mut TokenStream) -> (parsed: ParseResult<NamedChord>)
    requires
        old(token_stream)@.tokens.len() > 0,
    ensures
        final(token_stream)@.tokens == old(token_stream)@.tokens,
        match named_chord_at(old(token_stream)@.tokens, old(token_stream)@.current) {
            Ok((value, next)) => parsed matches Ok(found) && found@ == value && follows(
                old(token_stream)@,
                final(token_stream)@,
                next,
            ),
            Err(failure) => parsed matches Err(found) && found@ == failure,
        },
{
    let chord_name = match parse_chord_name(token_stream) {
        Ok(chord_name) => chord_name,
        Err(failure) => {
            return Err(failure);
        },
    };
    let note_length = match parse_note_length(token_stream) {
        Ok(note_length) => note_length,
        Err(failure) => {
            return Err(failure);
        },
    };
    Ok(NamedChord { chord_name, note_length })
}

/// Reads one item of a sequence into it. Hands back whether the sequence
/// goes on: the closing brace ends it.
fn parse_sequence_item(token_stream: &mut TokenStream, sequence: &mut Sequence) -> (parsed:
    ParseResult<bool>)
    requires
        old(token_stream)@.tokens.len() > 0,
    ensures
        final(token_stream)@.tokens == old(token_stream)@.tokens,
        match sequence_item_at(
            old(token_stream)@.tokens,
            old(token_stream)@.current,
            old(sequence)@,
        ) {
            Ok((Some(longer), next)) => parsed == Ok::<bool, SpannedParsingError>(true)
                && final(sequence)@ == longer
                && follows(old(token_stream)@, final(token_stream)@, next),
            Ok((None, next)) => parsed == Ok::<bool, SpannedParsingError>(false)
                && final(sequence)@ == old(sequence)@
                && follows(old(token_stream)@, final(token_stream)@, next),
            Err(failure) => parsed matches Err(found) && found@ == failure,
        },
{
    let token: SpannedToken = match token_stream.peek() {
        Ok(token) => *token,
        Err(failure) => {
            return Err(failure);
        },
    };
    let ghost notes = sequence.notes@;
    let event: SeqEvent = match token.token {
        Token::Whitespace => {
            let _ = token_stream.bump();
            return Ok(true);
        },
        Token::CBrace => {
            let _ = token_stream.bump();
            return Ok(false);
        },
        Token::Tempo => {
            let _ = token_stream.bump();
            match token_stream.expect(Token::Whitespace) {
                Ok(_) => {},
                Err(failure) => {
                    return Err(failure);
                },
            }
            let tempo = match parse_tempo(token_stream) {
                Ok(tempo) => tempo,
                Err(failure) => {
                    return Err(failure);
                },
            };
            sequence.tempo = Some(Tempo { tempo });
            return Ok(true);
        },
        Token::Time => {
            let _ = token_stream.bump();
            match token_stream.expect(Token::Whitespace) {
                Ok(_) => {},
                Err(failure) => {
                    return Err(failure);
                },
            }
            let time_signature = match parse_time_signature(token_stream) {
                Ok(time_signature) => time_signature,
                Err(failure) => {
                    return Err(failure);
                },
            };
            sequence.time_signature = Some(time_signature);
            return Ok(true);
        },
        Token::Backslash => {
            let _ = token_stream.bump();
            match parse_named_chord(token_stream) {
                Ok(chord) => SeqEvent::NamedChord(chord),
                Err(failure) => {
                    return Err(failure);
                },
            }
        },
        Token::OBracket => {
            let _ = token_stream.bump();
            match parse_list_chord(token_stream) {
                Ok(chord) => SeqEvent::ListChord(chord),
                Err(failure) => {
                    return Err(failure);
                },
            }
        },
        Token::NoteName => {
            match parse_single_note(token_stream) {
                Ok(note) => SeqEvent::Single(note),
                Err(failure) => {
                    return Err(failure);
                },
            }
        },
        Token::Rest => {
            let _ = token_stream.bump();
            match parse_note_length(token_stream) {
                Ok(note_length) => SeqEvent::Rest(note_length),
                Err(failure) => {
                    return Err(failure);
                },
            }
        },
        _ => {
            return Err(ParsingError::UnexpectedToken(token.token).spanned_from_token(&token));
        },
    };
    let ghost added = event@;
    sequence.notes.push(event);
    assert(sequence@.notes =~= old(sequence)@.notes.push(added));
    Ok(true)
}

/// Reads a sequence behind its opening brace, up to and with its closing
/// brace.
fn parse_sequence(token_stream: &mut TokenStream) -> (parsed: ParseResult<Sequence>)
    requires
        old(token_stream)@.tokens.len() > 0,
    ensures
        final(token_stream)@.tokens == old(token_stream)@.tokens,
        match sequence_at(
            old(token_stream)@.tokens,
            old(token_stream)@.current,
            empty_sequence(),
        ) {
            Ok((value, next)) => parsed matches Ok(found) && found@ == value && follows(
                old(token_stream)@,
                final(token_stream)@,
                next,
            ),
            Err(failure) => parsed matches Err(found) && found@ == failure,
        },
{
    let mut sequence = Sequence::default();
    proof {
        use_type_invariant(&*token_stream);
    }
    loop
        invariant
            token_stream@.tokens.len() > 0,
            0 <= token_stream@.current <= token_stream@.tokens.len(),
            follows(old(token_stream)@, token_stream@, token_stream@.current),
            sequence_at(old(token_stream)@.tokens, old(token_stream)@.current, empty_sequence())
                == sequence_at(token_stream@.tokens, token_stream@.current, sequence@),
        decreases token_stream@.tokens.len() - token_stream@.current,
    {
        proof {
            lemma_sequence_item_advances(token_stream@.tokens, token_stream@.current, sequence@);
        }
        match parse_sequence_item(token_stream, &mut sequence) {
            Ok(more) => {
                if !more {
                    return Ok(sequence);
                }
            },
            Err(failure) => {
                return Err(failure);
            },
        }
    }
}

/// The syntax tree of a text, or the error that points at the first
/// character or token that no rule admits.
pub fn parse(input: &str) -> (parsed: ParseResult<Root>)
    ensures
        match parse_text(input.spec_bytes()) {
            Ok(root) => parsed matches Ok(found) && found@ == root,
            Err(failure) => parsed matches Err(found) && found@ == failure,
        },
{
    let tokens = match tokenize(input) {
        Ok(tokens) => tokens,
        Err(failure) => {
            return Err(failure);
        },
    };
    let mut token_stream = TokenStream::new(tokens.as_slice());
    let mut ast = Root::default();
    assert(ast@.statements =~= Seq::empty());
    let ghost all = token_stream@.tokens;
    while !token_stream.is_eoi()
        invariant
            token_stream@.tokens == all,
            0 <= token_stream@.current <= all.len(),
            parse_text(input.spec_bytes()) == parse_tokens(all),
            parse_tokens(all) == root_at(all, token_stream@.current, ast@.statements),
        decreases all.len() - token_stream@.current,
    {
        let token: SpannedToken = match token_stream.peek() {
            Ok(token) => *token,
            Err(failure) => {
                return Err(failure);
            },
        };
        match token.token {
            Token::Whitespace => {
                let _ = token_stream.bump();
            },
            Token::OBrace => {
                let ghost before = ast@.statements;
                proof {
                    lemma_sequence_advances(all, token_stream@.current + 1, empty_sequence());
                }
                let _ = token_stream.bump();
                let sequence = match parse_sequence(&mut token_stream) {
                    Ok(sequence) => sequence,
                    Err(failure) => {
                        return Err(failure);
                    },
                };
                let ghost added = Statement::Sequence(sequence)@;
                ast.statements.push(Statement::Sequence(sequence));
                assert(ast@.statements =~= before.push(added));
            },
            _ => {
                return Err(ParsingError::UnexpectedToken(token.token).spanned_from_token(&token));
            },
        }
    }
    Ok(ast)
}

} // verus!
