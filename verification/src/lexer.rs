//! The tokenizer: from the bytes of a text to its lexemes, each with the
//! bytes it spans.

use vstd::prelude::*;
use vstd::slice::slice_subrange;

use crate::syntax::ChordExtension;
use crate::syntax::ChordQuality;
use crate::syntax::Token;

verus! {

/// A token kind and the bytes `start..end` of the text that it spans.
#[derive(Debug, Clone, Copy, PartialEq, Eq, Structural)]
pub struct Lexeme {
    pub kind: Token,
    pub start: usize,
    pub end: usize,
}

/// Space, tab, line feed and form feed separate tokens.
pub open spec fn is_whitespace(byte: u8) -> bool {
    byte == ' ' as u8 || byte == '\t' as u8 || byte == '\n' as u8 || byte == 0x0c
}

pub open spec fn is_digit(byte: u8) -> bool {
    '0' as u8 <= byte <= '9' as u8
}

/// The letters that may start a note; which of them name one is for the
/// parser to say.
pub open spec fn is_note_letter(byte: u8) -> bool {
    'A' as u8 <= byte <= 'G' as u8 || 'a' as u8 <= byte <= 'g' as u8
}

/// The class of bytes that a run is made of: digits, or else whitespace.
pub open spec fn in_class(byte: u8, digits: bool) -> bool {
    if digits {
        is_digit(byte)
    } else {
        is_whitespace(byte)
    }
}

/// The number of bytes of one class that stand at `pos` without a gap.
pub open spec fn run_length(input: Seq<u8>, pos: int, digits: bool) -> int
    decreases input.len() - pos,
{
    if 0 <= pos < input.len() && in_class(input[pos], digits) {
        1 + run_length(input, pos + 1, digits)
    } else {
        0
    }
}

/// The token of a byte that is a token by itself.
pub open spec fn symbol(byte: u8) -> Option<Token> {
    if byte == '#' as u8 {
        Some(Token::Sharp)
    } else if byte == ':' as u8 {
        Some(Token::Colon)
    } else if byte == '|' as u8 {
        Some(Token::Bar)
    } else if byte == '/' as u8 {
        Some(Token::Slash)
    } else if byte == '\\' as u8 {
        Some(Token::Backslash)
    } else if byte == '{' as u8 {
        Some(Token::OBrace)
    } else if byte == '}' as u8 {
        Some(Token::CBrace)
    } else if byte == '[' as u8 {
        Some(Token::OBracket)
    } else if byte == ']' as u8 {
        Some(Token::CBracket)
    } else {
        None
    }
}

pub open spec fn tempo_word() -> Seq<u8> {
    seq!['t' as u8, 'e' as u8, 'm' as u8, 'p' as u8, 'o' as u8]
}

pub open spec fn time_word() -> Seq<u8> {
    seq!['t' as u8, 'i' as u8, 'm' as u8, 'e' as u8]
}

/// The `length` bytes at `pos`, where the text has that many.
pub open spec fn word_at(input: Seq<u8>, pos: int, length: int) -> Option<Seq<u8>> {
    if 0 <= pos && 0 <= length && pos + length <= input.len() {
        Some(input.subrange(pos, pos + length))
    } else {
        None
    }
}

pub open spec fn names_quality(input: Seq<u8>, pos: int) -> bool {
    word_at(input, pos, 3) matches Some(word) && ChordQuality::spec_from_bytes(word) is Some
}

pub open spec fn names_extension(input: Seq<u8>, pos: int, length: int) -> bool {
    word_at(input, pos, length) matches Some(word) && ChordExtension::spec_from_bytes(word)
        is Some
}

/// The token that starts at `pos`, with its length in bytes: the longest
/// that any rule allows. `None` where no rule allows one.
#[verifier::opaque]
pub open spec fn token_at(input: Seq<u8>, pos: int) -> Option<(Token, int)>
    recommends
        0 <= pos < input.len(),
{
    let first = input[pos];
    if is_whitespace(first) {
        Some((Token::Whitespace, run_length(input, pos, false)))
    } else if is_digit(first) {
        Some((Token::Number, run_length(input, pos, true)))
    } else if symbol(first) is Some {
        Some((symbol(first)->Some_0, 1))
    } else if word_at(input, pos, 5) == Some(tempo_word()) {
        Some((Token::Tempo, 5))
    } else if word_at(input, pos, 4) == Some(time_word()) {
        Some((Token::Time, 4))
    } else if names_quality(input, pos) {
        Some((Token::ChordQuality, 3))
    } else if names_extension(input, pos, 5) {
        Some((Token::ChordExtension, 5))
    } else if names_extension(input, pos, 4) {
        Some((Token::ChordExtension, 4))
    } else if first == 'b' as u8 {
        Some((Token::Flat, 1))
    } else if is_note_letter(first) {
        Some((Token::NoteName, 1))
    } else if first == 'z' as u8 {
        Some((Token::Rest, 1))
    } else {
        None
    }
}

/// The lexemes in front of what follows them, where anything follows.
pub open spec fn join(lexemes: Seq<Lexeme>, rest: Result<Seq<Lexeme>, int>) -> Result<
    Seq<Lexeme>,
    int,
> {
    match rest {
        Ok(more) => Ok(lexemes + more),
        Err(pos) => Err(pos),
    }
}

/// The lexemes of the text from `pos` on, or the first position from which
/// no token starts.
pub open spec fn tokens_from(input: Seq<u8>, pos: int) -> Result<Seq<Lexeme>, int>
    decreases input.len() - pos,
{
    if pos < 0 || pos >= input.len() {
        Ok(Seq::empty())
    } else {
        let found = token_at(input, pos);
        if found is Some && 0 < found->Some_0.1 <= input.len() - pos {
            let length = found->Some_0.1;
            join(
                seq![
                    Lexeme {
                        kind: found->Some_0.0,
                        start: pos as usize,
                        end: (pos + length) as usize,
                    },
                ],
                tokens_from(input, pos + length),
            )
        } else {
            Err(pos)
        }
    }
}

/// The lexemes of a text, or the first position from which no token starts.
pub open spec fn tokens_of(input: Seq<u8>) -> Result<Seq<Lexeme>, int> {
    tokens_from(input, 0)
}

pub open spec fn is_ascii_byte(byte: u8) -> bool {
    byte <= 0x7f
}

/// A run ends inside the text, holds bytes of its class only, and stops at
/// the first byte of another class.
pub proof fn lemma_run_length(input: Seq<u8>, pos: int, digits: bool)
    requires
        0 <= pos <= input.len(),
    ensures
        0 <= run_length(input, pos, digits) <= input.len() - pos,
        forall|i: int|
            pos <= i < pos + run_length(input, pos, digits) ==> in_class(#[trigger] input[i], digits),
        pos + run_length(input, pos, digits) < input.len() ==> !in_class(
            input[pos + run_length(input, pos, digits)],
            digits,
        ),
    decreases input.len() - pos,
{
    if pos < input.len() && in_class(input[pos], digits) {
        lemma_run_length(input, pos + 1, digits);
    }
}

proof fn lemma_quality_word(word: Seq<u8>)
    requires
        ChordQuality::spec_from_bytes(word) is Some,
    ensures
        word.len() == 3,
        forall|i: int| 0 <= i < 3 ==> is_ascii_byte(#[trigger] word[i]),
{
}

proof fn lemma_extension_word(word: Seq<u8>)
    requires
        ChordExtension::spec_from_bytes(word) is Some,
    ensures
        word.len() == 4 || word.len() == 5,
        forall|i: int| 0 <= i < word.len() ==> is_ascii_byte(#[trigger] word[i]),
{
}

/// A token is not empty, ends inside the text, and holds ASCII bytes only.
pub proof fn lemma_token_at(input: Seq<u8>, pos: int)
    requires
        0 <= pos < input.len(),
        token_at(input, pos) is Some,
    ensures
        0 < token_at(input, pos)->Some_0.1 <= input.len() - pos,
        forall|i: int|
            pos <= i < pos + token_at(input, pos)->Some_0.1 ==> is_ascii_byte(#[trigger] input[i]),
{
    reveal(token_at);
    let length = token_at(input, pos)->Some_0.1;
    let first = input[pos];
    if is_whitespace(first) {
        lemma_run_length(input, pos, false);
    } else if is_digit(first) {
        lemma_run_length(input, pos, true);
    } else if symbol(first) is Some {
    } else if length > 1 {
        let word = input.subrange(pos, pos + length);
        if word_at(input, pos, 5) == Some(tempo_word()) {
        } else if word_at(input, pos, 4) == Some(time_word()) {
        } else if names_quality(input, pos) {
            lemma_quality_word(word);
        } else {
            lemma_extension_word(word);
        }
        assert forall|i: int| pos <= i < pos + length implies is_ascii_byte(
            #[trigger] input[i],
        ) by {
            assert(is_ascii_byte(word[i - pos]));
        }
    }
}

/// True where a text is what a kind of token is made of.
pub open spec fn text_of_kind(kind: Token, text: Seq<u8>) -> bool {
    match kind {
        Token::Whitespace => text.len() > 0 && forall|i: int|
            0 <= i < text.len() ==> is_whitespace(#[trigger] text[i]),
        Token::Number => text.len() > 0 && forall|i: int|
            0 <= i < text.len() ==> is_digit(#[trigger] text[i]),
        Token::Tempo => text == tempo_word(),
        Token::Time => text == time_word(),
        Token::ChordQuality => ChordQuality::spec_from_bytes(text) is Some,
        Token::ChordExtension => ChordExtension::spec_from_bytes(text) is Some,
        Token::Flat => text == seq!['b' as u8],
        Token::NoteName => text.len() == 1 && is_note_letter(text[0]) && text[0] != 'b' as u8,
        Token::Rest => text == seq!['z' as u8],
        _ => text.len() == 1 && symbol(text[0]) == Some(kind),
    }
}

/// A token is made of what its kind is made of, and a run of whitespace or
/// of digits is a whole one: no byte of its class stands behind it.
pub proof fn lemma_token_text(input: Seq<u8>, pos: int)
    requires
        0 <= pos < input.len(),
        token_at(input, pos) is Some,
    ensures
        ({
            let (kind, length) = token_at(input, pos)->Some_0;
            &&& 0 < length <= input.len() - pos
            &&& text_of_kind(kind, input.subrange(pos, pos + length))
            &&& kind == Token::Whitespace && pos + length < input.len() ==> !is_whitespace(
                input[pos + length],
            )
            &&& kind == Token::Number && pos + length < input.len() ==> !is_digit(
                input[pos + length],
            )
        }),
{
    reveal(token_at);
    lemma_token_at(input, pos);
    let (kind, length) = token_at(input, pos)->Some_0;
    let text = input.subrange(pos, pos + length);
    let first = input[pos];
    assert(text[0] == first);
    if is_whitespace(first) {
        lemma_run_length(input, pos, false);
        assert forall|i: int| 0 <= i < text.len() implies is_whitespace(#[trigger] text[i]) by {
            assert(in_class(input[pos + i], false));
        }
    } else if is_digit(first) {
        lemma_run_length(input, pos, true);
        assert forall|i: int| 0 <= i < text.len() implies is_digit(#[trigger] text[i]) by {
            assert(in_class(input[pos + i], true));
        }
    } else if symbol(first) is Some {
    } else if length == 1 {
        assert(text =~= seq![first]);
    }
}

fn in_class_of(byte: u8, digits: bool) -> (member: bool)
    ensures
        member == in_class(byte, digits),
{
    if digits {
        '0' as u8 <= byte && byte <= '9' as u8
    } else {
        byte == ' ' as u8 || byte == '\t' as u8 || byte == '\n' as u8 || byte == 0x0c
    }
}

fn scan_run(input: &[u8], pos: usize, digits: bool) -> (end: usize)
    requires
        pos <= input.len(),
    ensures
        pos <= end <= input.len(),
        end - pos == run_length(input@, pos as int, digits),
{
    let mut end: usize = pos;
    while end < input.len() && in_class_of(input[end], digits)
        invariant
            pos <= end <= input.len(),
            run_length(input@, pos as int, digits) == (end - pos) + run_length(
                input@,
                end as int,
                digits,
            ),
        decreases input.len() - end,
    {
        end += 1;
    }
    end
}

fn symbol_of(byte: u8) -> (token: Option<Token>)
    ensures
        token == symbol(byte),
{
    if byte == '#' as u8 {
        Some(Token::Sharp)
    } else if byte == ':' as u8 {
        Some(Token::Colon)
    } else if byte == '|' as u8 {
        Some(Token::Bar)
    } else if byte == '/' as u8 {
        Some(Token::Slash)
    } else if byte == '\\' as u8 {
        Some(Token::Backslash)
    } else if byte == '{' as u8 {
        Some(Token::OBrace)
    } else if byte == '}' as u8 {
        Some(Token::CBrace)
    } else if byte == '[' as u8 {
        Some(Token::OBracket)
    } else if byte == ']' as u8 {
        Some(Token::CBracket)
    } else {
        None
    }
}

fn same_bytes(left: &[u8], right: &[u8]) -> (same: bool)
    ensures
        same == (left@ == right@),
{
    if left.len() != right.len() {
        return false;
    }
    let mut i: usize = 0;
    while i < left.len()
        invariant
            i <= left.len(),
            left.len() == right.len(),
            forall|j: int| 0 <= j < i ==> left@[j] == right@[j],
        decreases left.len() - i,
    {
        if left[i] != right[i] {
            return false;
        }
        i += 1;
    }
    assert(left@ =~= right@);
    true
}

/// The `length` bytes at `pos`, where the text has that many.
fn take_word(input: &[u8], pos: usize, length: usize) -> (word: Option<&[u8]>)
    requires
        pos <= input.len(),
    ensures
        match word_at(input@, pos as int, length as int) {
            Some(expected) => word matches Some(found) && found@ == expected,
            None => word is None,
        },
{
    if length <= input.len() - pos {
        Some(slice_subrange(input, pos, pos + length))
    } else {
        None
    }
}

fn is_word(input: &[u8], pos: usize, word: &[u8]) -> (found: bool)
    requires
        pos <= input.len(),
    ensures
        found == (word_at(input@, pos as int, word@.len() as int) == Some(word@)),
{
    match take_word(input, pos, word.len()) {
        Some(taken) => same_bytes(taken, word),
        None => false,
    }
}

fn quality_at(input: &[u8], pos: usize) -> (found: bool)
    requires
        pos <= input.len(),
    ensures
        found == names_quality(input@, pos as int),
{
    match take_word(input, pos, 3) {
        Some(word) => ChordQuality::from_bytes(word).is_some(),
        None => false,
    }
}

fn extension_at(input: &[u8], pos: usize, length: usize) -> (found: bool)
    requires
        pos <= input.len(),
    ensures
        found == names_extension(input@, pos as int, length as int),
{
    match take_word(input, pos, length) {
        Some(word) => ChordExtension::from_bytes(word).is_some(),
        None => false,
    }
}

/// The kind of the token that starts at `pos` and the position of its end,
/// where a token starts there.
pub fn next_token(input: &[u8], pos: usize) -> (found: Option<(Token, usize)>)
    requires
        pos < input.len(),
    ensures
        match token_at(input@, pos as int) {
            Some((kind, length)) => found == Some((kind, (pos + length) as usize)) && pos < pos
                + length <= input.len(),
            None => found is None,
        },
{
    proof {
        reveal(token_at);
        if token_at(input@, pos as int) is Some {
            lemma_token_at(input@, pos as int);
        }
    }
    let first: u8 = input[pos];
    let tempo: [u8; 5] = ['t' as u8, 'e' as u8, 'm' as u8, 'p' as u8, 'o' as u8];
    let time: [u8; 4] = ['t' as u8, 'i' as u8, 'm' as u8, 'e' as u8];
    assert(tempo@ =~= tempo_word());
    assert(time@ =~= time_word());
    if in_class_of(first, false) {
        Some((Token::Whitespace, scan_run(input, pos, false)))
    } else if in_class_of(first, true) {
        Some((Token::Number, scan_run(input, pos, true)))
    } else if let Some(token) = symbol_of(first) {
        Some((token, pos + 1))
    } else if is_word(input, pos, tempo.as_slice()) {
        Some((Token::Tempo, pos + 5))
    } else if is_word(input, pos, time.as_slice()) {
        Some((Token::Time, pos + 4))
    } else if quality_at(input, pos) {
        Some((Token::ChordQuality, pos + 3))
    } else if extension_at(input, pos, 5) {
        Some((Token::ChordExtension, pos + 5))
    } else if extension_at(input, pos, 4) {
        Some((Token::ChordExtension, pos + 4))
    } else if first == 'b' as u8 {
        Some((Token::Flat, pos + 1))
    } else if ('A' as u8 <= first && first <= 'G' as u8) || ('a' as u8 <= first && first <= 'g' as u8) {
        Some((Token::NoteName, pos + 1))
    } else if first == 'z' as u8 {
        Some((Token::Rest, pos + 1))
    } else {
        None
    }
}

proof fn lemma_join_twice(first: Seq<Lexeme>, second: Seq<Lexeme>, rest: Result<Seq<Lexeme>, int>)
    ensures
        join(first, join(second, rest)) == join(first + second, rest),
{
    if let Ok(more) = rest {
        assert(first + (second + more) =~= (first + second) + more);
    }
}

/// The lexemes of a text, or the first position from which no token starts.
pub fn lex(input: &[u8]) -> (lexed: Result<Vec<Lexeme>, usize>)
    ensures
        match tokens_of(input@) {
            Ok(lexemes) => lexed matches Ok(found) && found@ == lexemes,
            Err(pos) => lexed == Err::<Vec<Lexeme>, _>(pos as usize) && 0 <= pos < input.len(),
        },
{
    let mut lexemes: Vec<Lexeme> = Vec::new();
    let mut pos: usize = 0;
    while pos < input.len()
        invariant
            pos <= input.len(),
            tokens_of(input@) == join(lexemes@, tokens_from(input@, pos as int)),
        decreases input.len() - pos,
    {
        proof {
            if token_at(input@, pos as int) is Some {
                lemma_token_at(input@, pos as int);
            }
        }
        match next_token(input, pos) {
            Some((kind, end)) => {
                let lexeme = Lexeme { kind, start: pos, end };
                let ghost before = lexemes@;
                proof {
                    lemma_join_twice(before, seq![lexeme], tokens_from(input@, end as int));
                }
                lexemes.push(lexeme);
                assert(lexemes@ =~= before + seq![lexeme]);
                pos = end;
            },
            None => {
                return Err(pos);
            },
        }
    }
    assert(lexemes@ + Seq::<Lexeme>::empty() =~= lexemes@);
    Ok(lexemes)
}

/// True where every byte from `from` up to `to` is an ASCII byte.
pub open spec fn ascii_between(input: Seq<u8>, from: int, to: int) -> bool {
    forall|i: int| from <= i < to ==> is_ascii_byte(#[trigger] input[i])
}

/// True where the lexemes lie one after the other without a gap, the first
/// starting at `from` and the last ending at `to`, and none is empty.
pub open spec fn chained(lexemes: Seq<Lexeme>, from: int, to: int) -> bool {
    &&& from <= to
    &&& forall|i: int|
        0 <= i < lexemes.len() ==> from <= (#[trigger] lexemes[i]).start < lexemes[i].end <= to
    &&& forall|i: int, j: int|
        0 <= i && j == i + 1 && j < lexemes.len() ==> (#[trigger] lexemes[i]).end == (
        #[trigger] lexemes[j]).start
    &&& if lexemes.len() == 0 {
        from == to
    } else {
        lexemes[0].start == from && lexemes.last().end == to
    }
}

/// True where each lexeme is the token that starts where it starts.
pub open spec fn all_tokens(input: Seq<u8>, lexemes: Seq<Lexeme>) -> bool {
    forall|i: int|
        0 <= i < lexemes.len() ==> token_at(input, (#[trigger] lexemes[i]).start as int) == Some(
            (lexemes[i].kind, lexemes[i].end - lexemes[i].start),
        )
}

/// The lexemes of a text cover it from the first byte to the last, each is
/// the longest token at its place, and a text that has lexemes is ASCII. A
/// text without lexemes has them up to a byte from which no token starts.
pub proof fn lemma_tokens_from(input: Seq<u8>, pos: int)
    requires
        0 <= pos <= input.len() <= usize::MAX,
    ensures
        match tokens_from(input, pos) {
            Ok(lexemes) => {
                &&& chained(lexemes, pos, input.len() as int)
                &&& all_tokens(input, lexemes)
                &&& ascii_between(input, pos, input.len() as int)
            },
            Err(stop) => {
                &&& pos <= stop < input.len()
                &&& token_at(input, stop) is None
                &&& ascii_between(input, pos, stop)
            },
        },
    decreases input.len() - pos,
{
    if pos < input.len() {
        let found = token_at(input, pos);
        if found is Some {
            lemma_token_at(input, pos);
            let length = found->Some_0.1;
            let head = Lexeme {
                kind: found->Some_0.0,
                start: pos as usize,
                end: (pos + length) as usize,
            };
            lemma_tokens_from(input, pos + length);
            match tokens_from(input, pos + length) {
                Ok(more) => {
                    let lexemes = seq![head] + more;
                    assert forall|i: int| 0 <= i < lexemes.len() implies pos <= (
                    #[trigger] lexemes[i]).start < lexemes[i].end <= input.len() && token_at(
                        input,
                        lexemes[i].start as int,
                    ) == Some((lexemes[i].kind, lexemes[i].end - lexemes[i].start)) by {
                        if i > 0 {
                            assert(lexemes[i] == more[i - 1]);
                        }
                    }
                    assert forall|i: int, j: int|
                        0 <= i && j == i + 1 && j < lexemes.len() implies (
                    #[trigger] lexemes[i]).end == (#[trigger] lexemes[j]).start by {
                        assert(lexemes[j] == more[j - 1]);
                        if i > 0 {
                            assert(lexemes[i] == more[i - 1]);
                        }
                    }
                    if more.len() > 0 {
                        assert(lexemes.last() == more.last());
                    }
                },
                Err(stop) => {},
            }
        }
    }
}

} // verus!
