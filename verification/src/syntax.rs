//! The notation's vocabulary: token kinds and the syntax tree that the parser
//! builds and the timeline generator consumes.

use vstd::prelude::*;
use vstd::string::StringSliceAdditionalSpecFns;

verus! {

/// The kind of a lexeme.
#[derive(Debug, PartialEq, Eq, Clone, Copy, Structural)]
pub enum Token {
    Whitespace,
    Number,
    Sharp,
    NoteName,
    Flat,
    Colon,
    Bar,
    Slash,
    Backslash,
    OBrace,
    CBrace,
    OBracket,
    CBracket,
    Tempo,
    Time,
    Rest,
    ChordQuality,
    ChordExtension,
}

impl Token {
    /// The name of the kind, as error messages show it.
    pub open spec fn spec_name(self) -> Seq<char> {
        match self {
            Token::Whitespace => "Whitespace"@,
            Token::Number => "Number"@,
            Token::Sharp => "Sharp"@,
            Token::NoteName => "NoteName"@,
            Token::Flat => "Flat"@,
            Token::Colon => "Colon"@,
            Token::Bar => "Bar"@,
            Token::Slash => "Slash"@,
            Token::Backslash => "Backslash"@,
            Token::OBrace => "OBrace"@,
            Token::CBrace => "CBrace"@,
            Token::OBracket => "OBracket"@,
            Token::CBracket => "CBracket"@,
            Token::Tempo => "Tempo"@,
            Token::Time => "Time"@,
            Token::Rest => "Rest"@,
            Token::ChordQuality => "ChordQuality"@,
            Token::ChordExtension => "ChordExtension"@,
        }
    }

    pub fn name(self) -> (name: &'static str)
        ensures
            name@ == self.spec_name(),
    {
        match self {
            Token::Whitespace => "Whitespace",
            Token::Number => "Number",
            Token::Sharp => "Sharp",
            Token::NoteName => "NoteName",
            Token::Flat => "Flat",
            Token::Colon => "Colon",
            Token::Bar => "Bar",
            Token::Slash => "Slash",
            Token::Backslash => "Backslash",
            Token::OBrace => "OBrace",
            Token::CBrace => "CBrace",
            Token::OBracket => "OBracket",
            Token::CBracket => "CBracket",
            Token::Tempo => "Tempo",
            Token::Time => "Time",
            Token::Rest => "Rest",
            Token::ChordQuality => "ChordQuality",
            Token::ChordExtension => "ChordExtension",
        }
    }
}

/// Beats per minute.
#[derive(Debug, Clone, Copy, PartialEq, Eq, PartialOrd, Ord, Hash, Structural)]
pub struct Tempo {
    pub tempo: u32,
}

/// A time signature. Both parts are non-zero.
#[derive(Debug, Clone, Copy, PartialEq, Eq, PartialOrd, Ord, Hash, Structural)]
pub struct TimeSignature {
    /// The number of beats in a measure.
    /// For example, 4 beats in 4/4 time.
    numerator: u8,
    /// The type of note that gets one beat.
    /// For example, a quarter note gets one beat in 4/4 time.
    denominator: u8,
}

impl TimeSignature {
    #[verifier::type_invariant]
    spec fn non_zero(self) -> bool {
        self.numerator != 0 && self.denominator != 0
    }

    /// The number of beats in a measure.
    pub closed spec fn spec_numerator(&self) -> u8 {
        self.numerator
    }

    /// The type of note that gets one beat.
    pub closed spec fn spec_denominator(&self) -> u8 {
        self.denominator
    }

    /// A value as the type admits it: both parts non-zero.
    pub open spec fn valid(&self) -> bool {
        self.spec_numerator() != 0 && self.spec_denominator() != 0
    }

    /// The time signature with the given parts.
    pub closed spec fn spec_new(numerator: u8, denominator: u8) -> TimeSignature {
        TimeSignature { numerator, denominator }
    }

    /// A time signature is its two parts and nothing else.
    pub broadcast proof fn lemma_parts(numerator: u8, denominator: u8)
        ensures
            (#[trigger] Self::spec_new(numerator, denominator)).spec_numerator() == numerator,
            Self::spec_new(numerator, denominator).spec_denominator() == denominator,
    {
    }

    /// Two time signatures with the same parts are the same.
    pub proof fn lemma_from_parts(self)
        ensures
            self == Self::spec_new(self.spec_numerator(), self.spec_denominator()),
    {
    }

    /// The time signature with the given parts, neither of which is zero.
    pub fn new(numerator: u8, denominator: u8) -> (ts: Self)
        requires
            numerator != 0,
            denominator != 0,
        ensures
            ts == Self::spec_new(numerator, denominator),
            ts.spec_numerator() == numerator,
            ts.spec_denominator() == denominator,
    {
        TimeSignature { numerator, denominator }
    }

    #[verifier::when_used_as_spec(spec_numerator)]
    pub fn numerator(&self) -> (n: u8)
        ensures
            n == self.spec_numerator(),
            n != 0,
    {
        proof {
            use_type_invariant(self);
        }
        self.numerator
    }

    #[verifier::when_used_as_spec(spec_denominator)]
    pub fn denominator(&self) -> (d: u8)
        ensures
            d == self.spec_denominator(),
            d != 0,
    {
        proof {
            use_type_invariant(self);
        }
        self.denominator
    }

    /// The ticks of a measure, where a quarter note has `ticks_per_quarter`
    /// ticks: as many beats as the numerator says, which is one bar.
    pub fn ticks_per_measure(&self, ticks_per_quarter: u32) -> (ticks: u32)
        requires
            supported_denominator(self.spec_denominator() as int),
            self.spec_numerator() * denominator_ticks(
                ticks_per_quarter as int,
                self.spec_denominator() as int,
            ) <= u32::MAX,
        ensures
            self.valid(),
            ticks == self.spec_numerator() * denominator_ticks(
                ticks_per_quarter as int,
                self.spec_denominator() as int,
            ),
            ticks == NoteLength::Bars(1).spec_ticks(ticks_per_quarter as int, *self),
    {
        proof {
            use_type_invariant(self);
        }
        let beat: u64 = self.beat(ticks_per_quarter);
        assert(self.numerator * beat == beat * 1 * self.numerator) by (nonlinear_arith);
        (self.numerator as u64 * beat) as u32
    }

    /// The ticks of a beat, where a quarter note has `ticks_per_quarter`
    /// ticks: those of the note that the denominator names.
    pub fn ticks_per_beat(&self, ticks_per_quarter: u32) -> (ticks: u32)
        requires
            supported_denominator(self.spec_denominator() as int),
            denominator_ticks(ticks_per_quarter as int, self.spec_denominator() as int)
                <= u32::MAX,
        ensures
            self.valid(),
            ticks == denominator_ticks(ticks_per_quarter as int, self.spec_denominator() as int),
    {
        proof {
            use_type_invariant(self);
        }
        self.beat(ticks_per_quarter) as u32
    }

    fn beat(&self, ticks_per_quarter: u32) -> (ticks: u64)
        requires
            supported_denominator(self.spec_denominator() as int),
        ensures
            ticks == denominator_ticks(ticks_per_quarter as int, self.spec_denominator() as int),
            ticks <= 4 * u32::MAX,
    {
        let wide: u64 = ticks_per_quarter as u64;
        if self.denominator == 1 {
            wide * 4
        } else if self.denominator == 2 {
            wide * 2
        } else if self.denominator == 4 {
            wide
        } else if self.denominator == 8 {
            wide / 2
        } else if self.denominator == 16 {
            wide / 4
        } else if self.denominator == 32 {
            wide / 8
        } else {
            wide / 16
        }
    }
}

impl Default for TimeSignature {
    fn default() -> (ts: Self)
        ensures
            ts == TimeSignature::spec_new(4, 4),
            ts.spec_numerator() == 4,
            ts.spec_denominator() == 4,
    {
        TimeSignature { numerator: 4, denominator: 4 }
    }
}


/// The top of a syntax tree: the statements of one input, in source order.
#[derive(Debug, Clone, PartialEq, Eq, PartialOrd, Ord, Hash)]
pub struct Root {
    pub statements: Vec<Statement>,
}

/// A syntax tree as a mathematical value.
pub struct RootView {
    pub statements: Seq<StatementView>,
}

impl View for Root {
    type V = RootView;

    open spec fn view(&self) -> RootView {
        RootView { statements: self.statements@.map_values(|statement: Statement| statement@) }
    }
}

impl Default for Root {
    fn default() -> (root: Self)
        ensures
            root@.statements.len() == 0,
    {
        Root { statements: Vec::new() }
    }
}

#[derive(Debug, Clone, PartialEq, Eq, PartialOrd, Ord, Hash)]
pub enum Statement {
    Sequence(Sequence),
}

pub enum StatementView {
    Sequence(SequenceView),
}

impl View for Statement {
    type V = StatementView;

    open spec fn view(&self) -> StatementView {
        match self {
            Statement::Sequence(sequence) => StatementView::Sequence(sequence@),
        }
    }
}

/// A braced run of events that play back to back, with the tempo and time
/// signature declared inside it, if any.
#[derive(Debug, Clone, PartialEq, Eq, PartialOrd, Ord, Hash)]
pub struct Sequence {
    pub tempo: Option<Tempo>,
    pub time_signature: Option<TimeSignature>,
    pub notes: Vec<SeqEvent>,
}

pub struct SequenceView {
    pub tempo: Option<Tempo>,
    pub time_signature: Option<TimeSignature>,
    pub notes: Seq<SeqEventView>,
}

impl View for Sequence {
    type V = SequenceView;

    open spec fn view(&self) -> SequenceView {
        SequenceView {
            tempo: self.tempo,
            time_signature: self.time_signature,
            notes: self.notes@.map_values(|event: SeqEvent| event@),
        }
    }
}

impl Default for Sequence {
    fn default() -> (sequence: Self)
        ensures
            sequence@ == (SequenceView { tempo: None, time_signature: None, notes: Seq::empty() }),
    {
        let sequence = Sequence { tempo: None, time_signature: None, notes: Vec::new() };
        assert(sequence@.notes =~= Seq::empty());
        sequence
    }
}

#[derive(Debug, Clone, PartialEq, Eq, PartialOrd, Ord, Hash)]
pub enum SeqEvent {
    Single(SingleNote),
    ListChord(ListChord),
    NamedChord(NamedChord),
    Rest(NoteLength),
}

pub enum SeqEventView {
    Single(SingleNote),
    ListChord(ListChordView),
    NamedChord(NamedChordView),
    Rest(NoteLength),
}

impl View for SeqEvent {
    type V = SeqEventView;

    open spec fn view(&self) -> SeqEventView {
        match self {
            SeqEvent::Single(note) => SeqEventView::Single(*note),
            SeqEvent::ListChord(chord) => SeqEventView::ListChord(chord@),
            SeqEvent::NamedChord(chord) => SeqEventView::NamedChord(chord@),
            SeqEvent::Rest(length) => SeqEventView::Rest(*length),
        }
    }
}

/// Notes written out between brackets, sounding together for one duration.
#[derive(Debug, Clone, PartialEq, Eq, PartialOrd, Ord, Hash)]
pub struct ListChord {
    pub notes: Vec<ChordNote>,
    pub note_length: NoteLength,
}

pub struct ListChordView {
    pub notes: Seq<ChordNote>,
    pub note_length: NoteLength,
}

impl View for ListChord {
    type V = ListChordView;

    open spec fn view(&self) -> ListChordView {
        ListChordView { notes: self.notes@, note_length: self.note_length }
    }
}

impl Default for ListChord {
    fn default() -> (chord: Self)
        ensures
            chord@ == (ListChordView { notes: Seq::empty(), note_length: NoteLength::Whole }),
    {
        ListChord { notes: Vec::new(), note_length: NoteLength::Whole }
    }
}

#[derive(Debug, Clone, Copy, PartialEq, Eq, PartialOrd, Ord, Hash, Structural)]
pub struct ChordNote {
    pub note_name: NoteName,
    pub octave_number: i32,
    pub accidental: Accidental,
}

/// A chord given by its root, its quality and the tones added to the triad.
/// The extensions are a set: order and repetition do not matter.
#[derive(Debug, Clone, PartialEq, Eq, PartialOrd, Ord, Hash)]
pub struct ChordName {
    pub root: NoteName,
    pub root_accidental: Accidental,
    pub root_octave_number: i32,
    pub quality: ChordQuality,
    pub extensions: Vec<ChordExtension>,
}

pub struct ChordNameView {
    pub root: NoteName,
    pub root_accidental: Accidental,
    pub root_octave_number: i32,
    pub quality: ChordQuality,
    pub extensions: Seq<ChordExtension>,
}

impl View for ChordName {
    type V = ChordNameView;

    open spec fn view(&self) -> ChordNameView {
        ChordNameView {
            root: self.root,
            root_accidental: self.root_accidental,
            root_octave_number: self.root_octave_number,
            quality: self.quality,
            extensions: self.extensions@,
        }
    }
}

#[derive(Debug, Clone, PartialEq, Eq, PartialOrd, Ord, Hash)]
pub struct NamedChord {
    pub chord_name: ChordName,
    pub note_length: NoteLength,
}

pub struct NamedChordView {
    pub chord_name: ChordNameView,
    pub note_length: NoteLength,
}

impl View for NamedChord {
    type V = NamedChordView;

    open spec fn view(&self) -> NamedChordView {
        NamedChordView { chord_name: self.chord_name@, note_length: self.note_length }
    }
}

#[derive(Debug, Clone, Copy, PartialEq, Eq, PartialOrd, Ord, Hash, Structural)]
pub enum ChordQuality {
    Major,
    Minor,
    Diminished,
    Augmented,
}

impl ChordQuality {
    /// The quality that a keyword stands for.
    pub open spec fn spec_from_bytes(text: Seq<u8>) -> Option<ChordQuality> {
        if text == seq!['m' as u8, 'a' as u8, 'j' as u8] {
            Some(ChordQuality::Major)
        } else if text == seq!['m' as u8, 'i' as u8, 'n' as u8] {
            Some(ChordQuality::Minor)
        } else if text == seq!['d' as u8, 'i' as u8, 'm' as u8] {
            Some(ChordQuality::Diminished)
        } else if text == seq!['a' as u8, 'u' as u8, 'g' as u8] {
            Some(ChordQuality::Augmented)
        } else {
            None
        }
    }

    pub fn from_bytes(text: &[u8]) -> (quality: Option<ChordQuality>)
        ensures
            quality == Self::spec_from_bytes(text@),
    {
        if text.len() != 3 {
            return None;
        }
        let (a, b, c): (u8, u8, u8) = (text[0], text[1], text[2]);
        assert(text@ =~= seq![a, b, c]);
        if a == 'm' as u8 && b == 'a' as u8 && c == 'j' as u8 {
            Some(ChordQuality::Major)
        } else if a == 'm' as u8 && b == 'i' as u8 && c == 'n' as u8 {
            Some(ChordQuality::Minor)
        } else if a == 'd' as u8 && b == 'i' as u8 && c == 'm' as u8 {
            Some(ChordQuality::Diminished)
        } else if a == 'a' as u8 && b == 'u' as u8 && c == 'g' as u8 {
            Some(ChordQuality::Augmented)
        } else {
            None
        }
    }
}

impl std::str::FromStr for ChordQuality {
    type Err = ();

    fn from_str(s: &str) -> (parsed: Result<Self, Self::Err>)
        ensures
            parsed == (match ChordQuality::spec_from_bytes(s.spec_bytes()) {
                Some(quality) => Ok(quality),
                None => Err(()),
            }),
    {
        match ChordQuality::from_bytes(s.as_bytes()) {
            Some(quality) => Ok(quality),
            None => Err(()),
        }
    }
}

#[derive(Debug, Clone, Copy, PartialEq, Eq, PartialOrd, Ord, Hash, Structural)]
pub enum ChordExtension {
    Sixth,
    Seventh,
    Ninth,
    Eleventh,
    Thirteenth,
}

impl ChordExtension {
    /// The extension that a keyword stands for.
    pub open spec fn spec_from_bytes(text: Seq<u8>) -> Option<ChordExtension> {
        if text == seq!['a' as u8, 'd' as u8, 'd' as u8, '6' as u8] {
            Some(ChordExtension::Sixth)
        } else if text == seq!['a' as u8, 'd' as u8, 'd' as u8, '9' as u8] {
            Some(ChordExtension::Ninth)
        } else if text == seq!['a' as u8, 'd' as u8, 'd' as u8, '1' as u8, '1' as u8] {
            Some(ChordExtension::Eleventh)
        } else if text == seq!['a' as u8, 'd' as u8, 'd' as u8, '1' as u8, '3' as u8] {
            Some(ChordExtension::Thirteenth)
        } else {
            None
        }
    }

    pub fn from_bytes(text: &[u8]) -> (extension: Option<ChordExtension>)
        ensures
            extension == Self::spec_from_bytes(text@),
    {
        let n: usize = text.len();
        if n < 4 || n > 5 || text[0] != 'a' as u8 || text[1] != 'd' as u8 || text[2] != 'd' as u8 {
            return None;
        }
        let d: u8 = text[3];
        if n == 4 {
            assert(text@ =~= seq!['a' as u8, 'd' as u8, 'd' as u8, d]);
            if d == '6' as u8 {
                Some(ChordExtension::Sixth)
            } else if d == '9' as u8 {
                Some(ChordExtension::Ninth)
            } else {
                None
            }
        } else {
            let e: u8 = text[4];
            assert(text@ =~= seq!['a' as u8, 'd' as u8, 'd' as u8, d, e]);
            if d == '1' as u8 && e == '1' as u8 {
                Some(ChordExtension::Eleventh)
            } else if d == '1' as u8 && e == '3' as u8 {
                Some(ChordExtension::Thirteenth)
            } else {
                None
            }
        }
    }
}

impl std::str::FromStr for ChordExtension {
    type Err = ();

    fn from_str(s: &str) -> (parsed: Result<Self, Self::Err>)
        ensures
            parsed == (match ChordExtension::spec_from_bytes(s.spec_bytes()) {
                Some(extension) => Ok(extension),
                None => Err(()),
            }),
    {
        match ChordExtension::from_bytes(s.as_bytes()) {
            Some(extension) => Ok(extension),
            None => Err(()),
        }
    }
}

#[derive(Debug, Clone, Copy, PartialEq, Eq, PartialOrd, Ord, Hash, Structural)]
pub struct SingleNote {
    pub note_name: NoteName,
    pub octave_number: i32,
    pub note_length: NoteLength,
    pub accidental: Accidental,
}

#[derive(Debug, Clone, Copy, PartialEq, Eq, PartialOrd, Ord, Hash, Structural)]
pub enum Accidental {
    Sharp,
    Flat,
    Natural,
}

impl Accidental {
    /// The accidental that a marker stands for.
    pub open spec fn spec_from_bytes(text: Seq<u8>) -> Option<Accidental> {
        if text == seq!['#' as u8] {
            Some(Accidental::Sharp)
        } else if text == seq!['b' as u8] {
            Some(Accidental::Flat)
        } else if text == seq!['n' as u8] {
            Some(Accidental::Natural)
        } else {
            None
        }
    }

    pub fn from_string(s: &str) -> (accidental: Option<Self>)
        ensures
            accidental == Self::spec_from_bytes(s.spec_bytes()),
    {
        let text: &[u8] = s.as_bytes();
        if text.len() != 1 {
            return None;
        }
        let c: u8 = text[0];
        assert(text@ =~= seq![c]);
        if c == '#' as u8 {
            Some(Accidental::Sharp)
        } else if c == 'b' as u8 {
            Some(Accidental::Flat)
        } else if c == 'n' as u8 {
            Some(Accidental::Natural)
        } else {
            None
        }
    }
}

#[derive(Debug, Clone, Copy, PartialEq, Eq, PartialOrd, Ord, Hash, Structural)]
pub enum NoteName {
    A,
    B,
    C,
    D,
    E,
    F,
    G,
}

impl NoteName {
    /// The note that a letter stands for. Only upper case letters name notes.
    pub open spec fn spec_from_bytes(text: Seq<u8>) -> Option<NoteName> {
        if text == seq!['A' as u8] {
            Some(NoteName::A)
        } else if text == seq!['B' as u8] {
            Some(NoteName::B)
        } else if text == seq!['C' as u8] {
            Some(NoteName::C)
        } else if text == seq!['D' as u8] {
            Some(NoteName::D)
        } else if text == seq!['E' as u8] {
            Some(NoteName::E)
        } else if text == seq!['F' as u8] {
            Some(NoteName::F)
        } else if text == seq!['G' as u8] {
            Some(NoteName::G)
        } else {
            None
        }
    }

    pub fn from_bytes(text: &[u8]) -> (name: Option<NoteName>)
        ensures
            name == Self::spec_from_bytes(text@),
    {
        if text.len() != 1 {
            return None;
        }
        let c: u8 = text[0];
        assert(text@ =~= seq![c]);
        if c == 'A' as u8 {
            Some(NoteName::A)
        } else if c == 'B' as u8 {
            Some(NoteName::B)
        } else if c == 'C' as u8 {
            Some(NoteName::C)
        } else if c == 'D' as u8 {
            Some(NoteName::D)
        } else if c == 'E' as u8 {
            Some(NoteName::E)
        } else if c == 'F' as u8 {
            Some(NoteName::F)
        } else if c == 'G' as u8 {
            Some(NoteName::G)
        } else {
            None
        }
    }
}

impl std::str::FromStr for NoteName {
    type Err = ();

    fn from_str(s: &str) -> (parsed: Result<Self, Self::Err>)
        ensures
            parsed == (match NoteName::spec_from_bytes(s.spec_bytes()) {
                Some(name) => Ok(name),
                None => Err(()),
            }),
    {
        match NoteName::from_bytes(s.as_bytes()) {
            Some(name) => Ok(name),
            None => Err(()),
        }
    }
}

/// True of the denominators that name a note length: the powers of two up
/// to 64.
pub open spec fn supported_denominator(denominator: int) -> bool {
    denominator == 1 || denominator == 2 || denominator == 4 || denominator == 8
        || denominator == 16 || denominator == 32 || denominator == 64
}

/// The ticks of the note that a denominator names, where a quarter note has
/// `ticks_per_beat` ticks.
pub open spec fn denominator_ticks(ticks_per_beat: int, denominator: int) -> int
    recommends
        supported_denominator(denominator),
{
    if denominator == 1 {
        ticks_per_beat * 4
    } else if denominator == 2 {
        ticks_per_beat * 2
    } else if denominator == 4 {
        ticks_per_beat
    } else if denominator == 8 {
        ticks_per_beat / 2
    } else if denominator == 16 {
        ticks_per_beat / 4
    } else if denominator == 32 {
        ticks_per_beat / 8
    } else {
        ticks_per_beat / 16
    }
}

/// A duration: a fraction of a whole note, or a count of bars.
#[derive(Debug, Clone, Copy, PartialEq, Eq, PartialOrd, Ord, Hash, Structural)]
pub enum NoteLength {
    SixtyFourth,
    ThirtySecond,
    Sixteenth,
    Eighth,
    Quarter,
    Half,
    Whole,
    Bars(u32),
}

impl Default for NoteLength {
    fn default() -> (length: Self)
        ensures
            length == NoteLength::Whole,
    {
        NoteLength::Whole
    }
}

impl NoteLength {
    /// The duration in ticks, where a quarter note has `ticks_per_beat`
    /// ticks. A bar has as many denominator notes as the numerator says.
    pub open spec fn spec_ticks(self, ticks_per_beat: int, time_signature: TimeSignature) -> int {
        match self {
            NoteLength::SixtyFourth => ticks_per_beat / 16,
            NoteLength::ThirtySecond => ticks_per_beat / 8,
            NoteLength::Sixteenth => ticks_per_beat / 4,
            NoteLength::Eighth => ticks_per_beat / 2,
            NoteLength::Quarter => ticks_per_beat,
            NoteLength::Half => ticks_per_beat * 2,
            NoteLength::Whole => ticks_per_beat * 4,
            NoteLength::Bars(bars) => denominator_ticks(
                ticks_per_beat,
                time_signature.spec_denominator() as int,
            ) * bars * time_signature.spec_numerator(),
        }
    }

    /// True where the duration has a tick count that fits in 32 bits: a bar
    /// count needs a denominator that names a note length.
    pub open spec fn resolvable(self, ticks_per_beat: int, time_signature: TimeSignature) -> bool {
        &&& self is Bars ==> supported_denominator(time_signature.spec_denominator() as int)
        &&& self.spec_ticks(ticks_per_beat, time_signature) <= u32::MAX
    }

    /// The duration in ticks, or `None` where it has none that fits.
    pub fn checked_ticks(self, ticks_per_beat: u32, time_signature: TimeSignature) -> (ticks: Option<u32>)
        ensures
            ticks == (if self.resolvable(ticks_per_beat as int, time_signature) {
                Some(self.spec_ticks(ticks_per_beat as int, time_signature) as u32)
            } else {
                None
            }),
    {
        let wide: u64 = ticks_per_beat as u64;
        let total: u128 = match self {
            NoteLength::SixtyFourth => (wide / 16) as u128,
            NoteLength::ThirtySecond => (wide / 8) as u128,
            NoteLength::Sixteenth => (wide / 4) as u128,
            NoteLength::Eighth => (wide / 2) as u128,
            NoteLength::Quarter => wide as u128,
            NoteLength::Half => (wide * 2) as u128,
            NoteLength::Whole => (wide * 4) as u128,
            NoteLength::Bars(bars) => {
                let denominator: u8 = time_signature.denominator();
                let unit: u64 = if denominator == 1 {
                    wide * 4
                } else if denominator == 2 {
                    wide * 2
                } else if denominator == 4 {
                    wide
                } else if denominator == 8 {
                    wide / 2
                } else if denominator == 16 {
                    wide / 4
                } else if denominator == 32 {
                    wide / 8
                } else if denominator == 64 {
                    wide / 16
                } else {
                    return None;
                };
                let numerator: u8 = time_signature.numerator();
                assert(unit * bars <= 0x4_0000_0000 * 0x1_0000_0000) by (nonlinear_arith)
                    requires
                        0 <= unit <= 0x4_0000_0000,
                        0 <= bars <= 0x1_0000_0000,
                ;
                let by_bars: u128 = unit as u128 * bars as u128;
                assert(by_bars * numerator <= 0x4_0000_0000_0000_0000 * 0x100) by (nonlinear_arith)
                    requires
                        0 <= by_bars <= 0x4_0000_0000_0000_0000,
                        0 <= numerator <= 0x100,
                ;
                by_bars * numerator as u128
            },
        };
        if total <= u32::MAX as u128 {
            Some(total as u32)
        } else {
            None
        }
    }

    /// The duration in ticks, where a quarter note has `ticks_per_beat`
    /// ticks.
    pub fn ticks(self, ticks_per_beat: u32, time_signature: TimeSignature) -> (ticks: u32)
        requires
            self.resolvable(ticks_per_beat as int, time_signature),
        ensures
            ticks == self.spec_ticks(ticks_per_beat as int, time_signature),
    {
        match self.checked_ticks(ticks_per_beat, time_signature) {
            Some(ticks) => ticks,
            None => 0,
        }
    }

    /// The fraction that a number after a colon names.
    pub open spec fn spec_from_bytes(text: Seq<u8>) -> Option<NoteLength> {
        if text == seq!['6' as u8, '4' as u8] {
            Some(NoteLength::SixtyFourth)
        } else if text == seq!['3' as u8, '2' as u8] {
            Some(NoteLength::ThirtySecond)
        } else if text == seq!['1' as u8, '6' as u8] {
            Some(NoteLength::Sixteenth)
        } else if text == seq!['8' as u8] {
            Some(NoteLength::Eighth)
        } else if text == seq!['4' as u8] {
            Some(NoteLength::Quarter)
        } else if text == seq!['2' as u8] {
            Some(NoteLength::Half)
        } else if text == seq!['1' as u8] {
            Some(NoteLength::Whole)
        } else {
            None
        }
    }

    pub fn from_bytes(text: &[u8]) -> (length: Option<NoteLength>)
        ensures
            length == Self::spec_from_bytes(text@),
    {
        if text.len() == 1 {
            let c: u8 = text[0];
            assert(text@ =~= seq![c]);
            if c == '8' as u8 {
                Some(NoteLength::Eighth)
            } else if c == '4' as u8 {
                Some(NoteLength::Quarter)
            } else if c == '2' as u8 {
                Some(NoteLength::Half)
            } else if c == '1' as u8 {
                Some(NoteLength::Whole)
            } else {
                None
            }
        } else if text.len() == 2 {
            let (c, d): (u8, u8) = (text[0], text[1]);
            assert(text@ =~= seq![c, d]);
            if c == '6' as u8 && d == '4' as u8 {
                Some(NoteLength::SixtyFourth)
            } else if c == '3' as u8 && d == '2' as u8 {
                Some(NoteLength::ThirtySecond)
            } else if c == '1' as u8 && d == '6' as u8 {
                Some(NoteLength::Sixteenth)
            } else {
                None
            }
        } else {
            None
        }
    }
}

impl std::str::FromStr for NoteLength {
    type Err = ();

    fn from_str(s: &str) -> (parsed: Result<Self, Self::Err>)
        ensures
            parsed == (match NoteLength::spec_from_bytes(s.spec_bytes()) {
                Some(length) => Ok(length),
                None => Err(()),
            }),
    {
        match NoteLength::from_bytes(s.as_bytes()) {
            Some(length) => Ok(length),
            None => Err(()),
        }
    }
}

} // verus!
