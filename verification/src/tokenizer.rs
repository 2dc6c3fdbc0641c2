//! The scanner: bytes to tokens.
//!
//! The scanner reads its input once, from left to right, one byte at a time.
//! What it produces is stated over the input as a whole: [`skip_blanks`] says
//! where the next token starts, [`token_at`] what it is and [`token_end`]
//! where it stops; [`tokens_of`] is the whole run.
use vstd::prelude::*;
use vstd::utf8::*;

pub mod error;
pub mod token;

pub use error::{TokenizerError, TokenizerResult};
pub use token::{Token, TokenType, TokenTypeView, TokenView, token_views};

use crate::number::Number;

verus! {

/// A space or a tab.
pub open spec fn is_blank(byte: u8) -> bool {
    byte == 0x20 || byte == 0x09
}

/// A line feed or a carriage return.
pub open spec fn is_line_break(byte: u8) -> bool {
    byte == 0x0a || byte == 0x0d
}

/// A decimal digit.
pub open spec fn is_digit(byte: u8) -> bool {
    0x30 <= byte <= 0x39
}

/// A letter or an underscore.
pub open spec fn is_name_start(byte: u8) -> bool {
    (0x41 <= byte <= 0x5a) || (0x61 <= byte <= 0x7a) || byte == 0x5f
}

/// A letter, a digit or an underscore.
pub open spec fn is_name_part(byte: u8) -> bool {
    is_name_start(byte) || is_digit(byte)
}

/// The token that a single byte spells, if it spells one.
pub open spec fn operator_of(byte: u8) -> Option<TokenTypeView> {
    if byte == 0x28 {
        Some(TokenTypeView::LeftParen)
    } else if byte == 0x29 {
        Some(TokenTypeView::RightParen)
    } else if byte == 0x2b {
        Some(TokenTypeView::Plus)
    } else if byte == 0x2d {
        Some(TokenTypeView::Minus)
    } else if byte == 0x2a {
        Some(TokenTypeView::Star)
    } else if byte == 0x3d {
        Some(TokenTypeView::Equal)
    } else if byte == 0x2f {
        Some(TokenTypeView::Slash)
    } else if byte == 0x5e {
        Some(TokenTypeView::Hat)
    } else {
        None
    }
}

/// The bytes read as characters, one for one.
pub open spec fn text_of(bytes: Seq<u8>) -> Seq<char> {
    Seq::new(bytes.len(), |i: int| bytes[i] as char)
}

/// Where the blanks and line breaks that start at `position` end, and how
/// many bytes of its line precede that place, given that `column` bytes of
/// the line precede `position`. A line break starts a new line.
pub open spec fn skip_blanks(bytes: Seq<u8>, position: int, column: int) -> (int, int)
    decreases bytes.len() - position,
{
    if 0 <= position < bytes.len() && is_blank(bytes[position]) {
        skip_blanks(bytes, position + 1, column + 1)
    } else if 0 <= position < bytes.len() && is_line_break(bytes[position]) {
        skip_blanks(bytes, position + 1, 0)
    } else {
        (position, column)
    }
}

/// The first index from `position` on that holds no digit.
pub open spec fn digits_end(bytes: Seq<u8>, position: int) -> int
    decreases bytes.len() - position,
{
    if 0 <= position < bytes.len() && is_digit(bytes[position]) {
        digits_end(bytes, position + 1)
    } else {
        position
    }
}

/// The first index from `position` on that holds no letter, digit or
/// underscore.
pub open spec fn name_end(bytes: Seq<u8>, position: int) -> int
    decreases bytes.len() - position,
{
    if 0 <= position < bytes.len() && is_name_part(bytes[position]) {
        name_end(bytes, position + 1)
    } else {
        position
    }
}

/// Whether a decimal point follows the whole part that ends at `whole_end`.
pub open spec fn has_point(bytes: Seq<u8>, whole_end: int) -> bool {
    0 <= whole_end < bytes.len() && bytes[whole_end] == 0x2e
}

/// Where the literal that starts with the digit at `start` ends: after its
/// digits, one decimal point if there is one, and the digits behind it.
pub open spec fn number_end(bytes: Seq<u8>, start: int) -> int {
    let whole_end = digits_end(bytes, start + 1);
    if has_point(bytes, whole_end) {
        digits_end(bytes, whole_end + 1)
    } else {
        whole_end
    }
}

/// The value of one digit.
pub open spec fn digit_value(byte: u8) -> Number {
    Number::Integer((byte - 0x30) as i64)
}

/// The value of a run of digits read as a whole number: each further digit
/// multiplies what came before by ten and adds itself.
pub open spec fn whole_value(digits: Seq<u8>) -> Number
    decreases digits.len(),
{
    if digits.len() <= 1 {
        digit_value(digits[0])
    } else {
        Number::sum(
            Number::product(whole_value(digits.drop_last()), Number::Integer(10)),
            digit_value(digits.last()),
        )
    }
}

/// The value of `whole` followed by a decimal point and `digits`: the digit
/// in place `n` behind the point adds itself times ten to the minus `n`.
pub open spec fn fraction_value(whole: Number, digits: Seq<u8>) -> Number
    decreases digits.len(),
{
    if digits.len() == 0 {
        whole
    } else {
        Number::sum(
            fraction_value(whole, digits.drop_last()),
            Number::product(digit_value(digits.last()), Number::TenToMinus(digits.len() as usize)),
        )
    }
}

/// The value of the literal that starts with the digit at `start`.
pub open spec fn literal_value(bytes: Seq<u8>, start: int) -> Number {
    let whole_end = digits_end(bytes, start + 1);
    let whole = whole_value(bytes.subrange(start, whole_end));
    if has_point(bytes, whole_end) {
        fraction_value(whole, bytes.subrange(whole_end + 1, digits_end(bytes, whole_end + 1)))
    } else {
        whole
    }
}

/// Where the token, or the unknown byte, that starts at `start` ends.
pub open spec fn token_end(bytes: Seq<u8>, start: int) -> int {
    if operator_of(bytes[start]) is Some {
        start + 1
    } else if is_digit(bytes[start]) {
        number_end(bytes, start)
    } else if is_name_start(bytes[start]) {
        name_end(bytes, start + 1)
    } else {
        start + 1
    }
}

/// The token that starts at `start`, a byte that is neither blank nor line
/// break, in column `column`; or the error for a byte that starts none.
pub open spec fn token_at(bytes: Seq<u8>, start: int, column: usize) -> Result<
    TokenView,
    TokenizerError,
> {
    let lexeme = text_of(bytes.subrange(start, token_end(bytes, start)));
    if let Some(token_type) = operator_of(bytes[start]) {
        Ok(TokenView { token_type, lexeme, column })
    } else if is_digit(bytes[start]) {
        Ok(TokenView { token_type: TokenTypeView::Number(literal_value(bytes, start)), lexeme, column })
    } else if is_name_start(bytes[start]) {
        Ok(TokenView { token_type: TokenTypeView::Identifier(lexeme), lexeme, column })
    } else {
        Err(TokenizerError::UnknownCharacter(bytes[start], column))
    }
}

/// The tokens from `position` on, where `column` bytes of the line precede
/// `position`; or the first error.
pub open spec fn tokens_from(bytes: Seq<u8>, position: int, column: int) -> Result<
    Seq<TokenView>,
    TokenizerError,
>
    decreases bytes.len() - position,
{
    let (start, before) = skip_blanks(bytes, position, column);
    if 0 <= position <= start < bytes.len() {
        match token_at(bytes, start, (before + 1) as usize) {
            Err(error) => Err(error),
            Ok(token) => {
                let end = token_end(bytes, start);
                proof {
                    lemma_token_end_bounds(bytes, start);
                }
                match tokens_from(bytes, end, before + (end - start)) {
                    Err(error) => Err(error),
                    Ok(rest) => Ok(seq![token] + rest),
                }
            },
        }
    } else {
        Ok(Seq::empty())
    }
}

/// The tokens of a whole input, or the first error.
pub open spec fn tokens_of(bytes: Seq<u8>) -> Result<Seq<TokenView>, TokenizerError> {
    tokens_from(bytes, 0, 0)
}

/// Blanks end at or behind the place they start, within the input, with no
/// more bytes of the line before them than of the input.
pub proof fn lemma_skip_blanks_bounds(bytes: Seq<u8>, position: int, column: int)
    requires
        0 <= position <= bytes.len(),
        0 <= column <= position,
    ensures
        position <= skip_blanks(bytes, position, column).0 <= bytes.len(),
        0 <= skip_blanks(bytes, position, column).1 <= skip_blanks(bytes, position, column).0,
        skip_blanks(bytes, position, column).0 < bytes.len() ==> !is_blank(
            bytes[skip_blanks(bytes, position, column).0],
        ) && !is_line_break(bytes[skip_blanks(bytes, position, column).0]),
    decreases bytes.len() - position,
{
    if position < bytes.len() && is_blank(bytes[position]) {
        lemma_skip_blanks_bounds(bytes, position + 1, column + 1);
    } else if position < bytes.len() && is_line_break(bytes[position]) {
        lemma_skip_blanks_bounds(bytes, position + 1, 0);
    }
}

/// A run of digits ends at or behind the place it starts, within the input.
pub proof fn lemma_digits_end_bounds(bytes: Seq<u8>, position: int)
    requires
        0 <= position <= bytes.len(),
    ensures
        position <= digits_end(bytes, position) <= bytes.len(),
        forall|i: int| position <= i < digits_end(bytes, position) ==> is_digit(#[trigger] bytes[i]),
        digits_end(bytes, position) < bytes.len() ==> !is_digit(bytes[digits_end(bytes, position)]),
    decreases bytes.len() - position,
{
    if position < bytes.len() && is_digit(bytes[position]) {
        lemma_digits_end_bounds(bytes, position + 1);
    }
}

/// A run of name characters ends at or behind the place it starts, within
/// the input.
pub proof fn lemma_name_end_bounds(bytes: Seq<u8>, position: int)
    requires
        0 <= position <= bytes.len(),
    ensures
        position <= name_end(bytes, position) <= bytes.len(),
        forall|i: int| position <= i < name_end(bytes, position) ==> is_name_part(#[trigger] bytes[i]),
        name_end(bytes, position) < bytes.len() ==> !is_name_part(bytes[name_end(bytes, position)]),
    decreases bytes.len() - position,
{
    if position < bytes.len() && is_name_part(bytes[position]) {
        lemma_name_end_bounds(bytes, position + 1);
    }
}

/// Every token holds at least one byte and ends within the input.
pub proof fn lemma_token_end_bounds(bytes: Seq<u8>, start: int)
    requires
        0 <= start < bytes.len(),
    ensures
        start < token_end(bytes, start) <= bytes.len(),
{
    lemma_digits_end_bounds(bytes, start + 1);
    let whole_end = digits_end(bytes, start + 1);
    if has_point(bytes, whole_end) {
        lemma_digits_end_bounds(bytes, whole_end + 1);
    }
    lemma_name_end_bounds(bytes, start + 1);
}


/// Bytes below 128 are UTF-8 as they stand, and decode to themselves.
pub proof fn lemma_ascii_is_utf8(bytes: Seq<u8>)
    requires
        forall|i: int| 0 <= i < bytes.len() ==> #[trigger] bytes[i] < 0x80,
    ensures
        valid_utf8(bytes),
        decode_utf8(bytes) == text_of(bytes),
{
    let chars = text_of(bytes);
    assert(is_ascii_chars(chars)) by {
        assert forall|i: int| 0 <= i < chars.len() implies '\0' <= #[trigger] chars[i] <= '\u{7f}' by {
            assert(bytes[i] < 0x80);
        }
    }
    is_ascii_chars_encode_utf8(chars);
    assert(encode_utf8(chars) =~= bytes) by {
        assert forall|i: int| 0 <= i < bytes.len() implies encode_utf8(chars)[i] == bytes[i] by {
            assert(chars[i] as u8 == encode_utf8(chars)[i]);
            assert(bytes[i] < 0x80);
        }
    }
    encode_utf8_valid_utf8(chars);
    encode_utf8_decode_utf8(chars);
}

/// What a scanned item stands for: the token's value, or the error.
pub open spec fn scanned(item: Result<Token, TokenizerError>) -> Result<TokenView, TokenizerError> {
    match item {
        Ok(token) => Ok(token@),
        Err(error) => Err(error),
    }
}

/// `String::from_utf8` of std: the text that the bytes encode, or nothing
/// where they are not UTF-8. Believed, not proved: that it accepts exactly
/// the valid encodings and decodes them as `decode_utf8` does.
#[verifier::external_body]
fn string_from_utf8(bytes: Vec<u8>) -> (text: Option<String>)
    ensures
        valid_utf8(bytes@) <==> text is Some,
        text is Some ==> text.unwrap()@ == decode_utf8(bytes@),
{
    match String::from_utf8(bytes) {
        Ok(text) => Some(text),
        Err(_) => None,
    }
}

/// A scanner over a byte input. It hands out one token per call of
/// [`Tokenizer::next`] and cannot be rewound.
pub struct Tokenizer {
    input: Vec<u8>,
    /// How many bytes have been consumed, and how many of them belong to
    /// the current line.
    place: (usize, usize),
}

impl Tokenizer {
    #[verifier::type_invariant]
    spec fn well_formed(&self) -> bool {
        self.place.0 <= self.input.len() && self.place.1 == line_offset(
            self.input@,
            self.place.0 as int,
        )
    }

    /// The whole input.
    pub closed spec fn input(&self) -> Seq<u8> {
        self.input@
    }

    /// How many bytes have been consumed.
    pub closed spec fn position(&self) -> int {
        self.place.0 as int
    }

    /// How many bytes of the current line have been consumed: the column,
    /// counted from one, of the byte consumed last, or zero at the start of
    /// a line.
    pub closed spec fn column(&self) -> int {
        self.place.1 as int
    }

    /// A scanner at the start of `input`.
    pub fn new(input: Vec<u8>) -> (scanner: Self)
        ensures
            scanner.input() == input@,
            scanner.position() == 0,
            scanner.column() == 0,
            scanner.on_its_line(),
    {
        Self { input, place: (0, 0) }
    }

    /// Whether the column is what the place in the input makes it: the
    /// number of bytes consumed since the last line break. It holds of every
    /// scanner, whatever was called on it.
    pub open spec fn on_its_line(&self) -> bool {
        &&& 0 <= self.column() <= self.position() <= self.input().len()
        &&& self.column() == line_offset(self.input(), self.position())
    }

    /// Consumes one byte and returns it; returns nothing, and changes
    /// nothing, at the end of the input. The column starts again from zero
    /// behind a line break.
    pub fn advance(&mut self) -> (byte: Option<u8>)
        ensures
            final(self).input() == old(self).input(),
            old(self).on_its_line(),
            final(self).on_its_line(),
            old(self).position() < old(self).input().len() ==> {
                &&& byte == Some(old(self).input()[old(self).position()])
                &&& final(self).position() == old(self).position() + 1
                &&& final(self).column() == if is_line_break(
                    old(self).input()[old(self).position()],
                ) {
                    0
                } else {
                    old(self).column() + 1
                }
            },
            old(self).position() == old(self).input().len() ==> {
                &&& byte is None
                &&& final(self).position() == old(self).position()
                &&& final(self).column() == old(self).column()
            },
    {
        proof {
            use_type_invariant(&*self);
            lemma_line_offset_bounds(self.input@, self.place.0 as int);
        }
        if self.place.0 < self.input.len() {
            let byte = self.input[self.place.0];
            let column = if byte == 0x0a || byte == 0x0d {
                0
            } else {
                self.place.1 + 1
            };
            self.place = (self.place.0 + 1, column);
            proof {
                lemma_line_offset_bounds(self.input@, self.place.0 as int);
            }
            Some(byte)
        } else {
            None
        }
    }

    /// Consumes blanks and line breaks, and the byte that follows them, which
    /// it returns; returns nothing where only blanks and line breaks are
    /// left.
    pub fn consume_whitespace(&mut self) -> (byte: Option<u8>)
        ensures
            final(self).input() == old(self).input(),
            old(self).on_its_line(),
            final(self).on_its_line(),
            ({
                let bytes = old(self).input();
                let (start, before) = skip_blanks(bytes, old(self).position(), old(self).column());
                &&& old(self).position() <= start <= bytes.len()
                &&& 0 <= before <= start
                &&& before == line_offset(bytes, start)
                &&& start < bytes.len() ==> {
                    &&& byte == Some(bytes[start])
                    &&& !is_blank(bytes[start]) && !is_line_break(bytes[start])
                    &&& final(self).position() == start + 1
                    &&& final(self).column() == before + 1
                }
                &&& start == bytes.len() ==> {
                    &&& byte is None
                    &&& final(self).position() == start
                    &&& final(self).column() == before
                }
            }),
    {
        proof {
            use_type_invariant(&*self);
            lemma_line_offset_bounds(self.input@, self.place.0 as int);
            lemma_skip_blanks_bounds(self.input@, self.place.0 as int, self.place.1 as int);
            lemma_skip_keeps_offset(self.input@, self.place.0 as int, self.place.1 as int);
        }
        let ghost goal = skip_blanks(self.input@, self.place.0 as int, self.place.1 as int);
        loop
            invariant
                self.input@ == old(self).input@,
                old(self).on_its_line(),
                self.on_its_line(),
                skip_blanks(self.input@, self.place.0 as int, self.place.1 as int) == goal,
                goal == skip_blanks(
                    old(self).input@,
                    old(self).place.0 as int,
                    old(self).place.1 as int,
                ),
                old(self).place.0 <= goal.0 <= self.input.len(),
                0 <= goal.1 <= goal.0,
                goal.1 == line_offset(self.input@, goal.0),
            decreases self.input.len() - self.place.0,
        {
            match self.advance() {
                None => {
                    return None;
                },
                Some(current) => {
                    if current == 0x0a || current == 0x0d {
                    } else if current == 0x20 || current == 0x09 {
                    } else {
                        return Some(current);
                    }
                },
            }
        }
    }

    /// The text that `lexeme` encodes, or [`TokenizerError::NoUtf8`] with the
    /// current column where the bytes are not UTF-8.
    pub fn lexeme_into_utf8(&self, lexeme: Vec<u8>) -> (text: TokenizerResult<String>)
        ensures
            valid_utf8(lexeme@) ==> text is Ok && text.unwrap()@ == decode_utf8(lexeme@),
            !valid_utf8(lexeme@) ==> text == Err::<String, TokenizerError>(
                TokenizerError::NoUtf8(self.column() as usize),
            ),
    {
        match string_from_utf8(lexeme) {
            Some(text) => Ok(text),
            None => Err(TokenizerError::NoUtf8(self.place.1)),
        }
    }

    fn add_token_with_column(&self, token_type: TokenType, lexeme: Vec<u8>, column: usize) -> (token:
        TokenizerResult<Token>)
        requires
            forall|i: int| 0 <= i < lexeme@.len() ==> #[trigger] lexeme@[i] < 0x80,
        ensures
            token is Ok,
            token.unwrap()@ == (TokenView {
                token_type: token_type@,
                lexeme: text_of(lexeme@),
                column,
            }),
    {
        proof {
            lemma_ascii_is_utf8(lexeme@);
        }
        match self.lexeme_into_utf8(lexeme) {
            Ok(text) => Ok(Token::new(token_type, text, column)),
            Err(error) => Err(error),
        }
    }

    fn add_token(&self, token_type: TokenType, lexeme: Vec<u8>) -> (token: TokenizerResult<Token>)
        requires
            forall|i: int| 0 <= i < lexeme@.len() ==> #[trigger] lexeme@[i] < 0x80,
        ensures
            token is Ok,
            token.unwrap()@ == (TokenView {
                token_type: token_type@,
                lexeme: text_of(lexeme@),
                column: self.column() as usize,
            }),
    {
        self.add_token_with_column(token_type, lexeme, self.place.1)
    }

    fn consume_number(&mut self, lexeme: Vec<u8>) -> (token: TokenizerResult<Token>)
        requires
            1 <= old(self).place.0,
            lexeme@ =~= old(self).input@.subrange(old(self).place.0 - 1, old(self).place.0 as int),
            is_digit(old(self).input@[old(self).place.0 - 1]),
        ensures
            final(self).input@ == old(self).input@,
            scanned(token) == token_at(
                old(self).input@,
                old(self).place.0 - 1,
                old(self).place.1,
            ),
            final(self).place.0 == token_end(old(self).input@, old(self).place.0 - 1),
            final(self).place.1 == old(self).place.1 + (final(self).place.0 - old(self).place.0),
    {
        proof {
            use_type_invariant(&*self);
            lemma_line_offset_bounds(self.input@, self.place.0 as int);
        }
        let ghost bytes = self.input@;
        let ghost start = self.place.0 - 1;
        let first_col = self.place.1;
        let mut lexeme = lexeme;
        let mut value = Number::Integer((lexeme[0] - 0x30) as i64);
        while self.place.0 < self.input.len() && 0x30 <= self.input[self.place.0]
            && self.input[self.place.0] <= 0x39
            invariant
                self.input@ == bytes,
                0 <= start < self.place.0 <= bytes.len(),
                self.place.1 <= self.place.0,
                self.place.1 == line_offset(bytes, self.place.0 as int),
                self.place.1 == first_col + (self.place.0 - start - 1),
                lexeme@ =~= bytes.subrange(start, self.place.0 as int),
                forall|i: int| start <= i < self.place.0 ==> is_digit(#[trigger] bytes[i]),
                digits_end(bytes, start + 1) == digits_end(bytes, self.place.0 as int),
                value == whole_value(bytes.subrange(start, self.place.0 as int)),
            decreases bytes.len() - self.place.0,
        {
            let digit = self.input[self.place.0];
            lexeme.push(digit);
            value = value.times(Number::Integer(10)).plus(Number::Integer((digit - 0x30) as i64));
            self.place = (self.place.0 + 1, self.place.1 + 1);
            proof {
                assert(bytes.subrange(start, self.place.0 as int).drop_last() =~= bytes.subrange(
                    start,
                    self.place.0 - 1,
                ));
            }
        }
        let ghost whole_end = self.place.0 as int;
        let ghost whole = value;
        if self.place.0 < self.input.len() && self.input[self.place.0] == 0x2e {
            lexeme.push(0x2e);
            self.place = (self.place.0 + 1, self.place.1 + 1);
            let mut places: usize = 0;
            assert(bytes.subrange(whole_end + 1, self.place.0 as int) =~= Seq::<u8>::empty());
            while self.place.0 < self.input.len() && 0x30 <= self.input[self.place.0]
                && self.input[self.place.0] <= 0x39
                invariant
                    self.input@ == bytes,
                    0 <= start < whole_end < self.place.0 <= bytes.len(),
                    self.place.1 <= self.place.0,
                    self.place.1 == line_offset(bytes, self.place.0 as int),
                self.place.1 == line_offset(bytes, self.place.0 as int),
                    self.place.1 == first_col + (self.place.0 - start - 1),
                    lexeme@ =~= bytes.subrange(start, self.place.0 as int),
                    forall|i: int| start <= i < self.place.0 ==> #[trigger] bytes[i] < 0x80,
                    digits_end(bytes, whole_end + 1) == digits_end(bytes, self.place.0 as int),
                    places == self.place.0 - (whole_end + 1),
                    value == fraction_value(
                        whole,
                        bytes.subrange(whole_end + 1, self.place.0 as int),
                    ),
                decreases bytes.len() - self.place.0,
            {
                let digit = self.input[self.place.0];
                lexeme.push(digit);
                places = places + 1;
                value = value.plus(
                    Number::Integer((digit - 0x30) as i64).times(Number::TenToMinus(places)),
                );
                self.place = (self.place.0 + 1, self.place.1 + 1);
                proof {
                    assert(bytes.subrange(whole_end + 1, self.place.0 as int).drop_last()
                        =~= bytes.subrange(whole_end + 1, self.place.0 - 1));
                }
            }
        }
        self.add_token_with_column(TokenType::Number(value), lexeme, first_col)
    }

    fn consume_identifier(&mut self, lexeme: Vec<u8>) -> (token: TokenizerResult<Token>)
        requires
            1 <= old(self).place.0,
            lexeme@ =~= old(self).input@.subrange(old(self).place.0 - 1, old(self).place.0 as int),
            is_name_start(old(self).input@[old(self).place.0 - 1]),
        ensures
            final(self).input@ == old(self).input@,
            scanned(token) == token_at(
                old(self).input@,
                old(self).place.0 - 1,
                old(self).place.1,
            ),
            final(self).place.0 == token_end(old(self).input@, old(self).place.0 - 1),
            final(self).place.1 == old(self).place.1 + (final(self).place.0 - old(self).place.0),
    {
        proof {
            use_type_invariant(&*self);
            lemma_line_offset_bounds(self.input@, self.place.0 as int);
        }
        let ghost bytes = self.input@;
        let ghost start = self.place.0 - 1;
        let first_col = self.place.1;
        let mut lexeme = lexeme;
        while self.place.0 < self.input.len() && Self::is_name_byte(self.input[self.place.0])
            invariant
                self.input@ == bytes,
                0 <= start < self.place.0 <= bytes.len(),
                self.place.1 <= self.place.0,
                self.place.1 == line_offset(bytes, self.place.0 as int),
                self.place.1 == first_col + (self.place.0 - start - 1),
                lexeme@ =~= bytes.subrange(start, self.place.0 as int),
                forall|i: int| start <= i < self.place.0 ==> #[trigger] bytes[i] < 0x80,
                name_end(bytes, start + 1) == name_end(bytes, self.place.0 as int),
            decreases bytes.len() - self.place.0,
        {
            let letter = self.input[self.place.0];
            lexeme.push(letter);
            self.place = (self.place.0 + 1, self.place.1 + 1);
        }
        proof {
            lemma_ascii_is_utf8(lexeme@);
        }
        match self.lexeme_into_utf8(lexeme) {
            Ok(name) => Ok(Token::new(TokenType::Identifier(name.clone()), name, first_col)),
            Err(error) => Err(error),
        }
    }

    fn is_name_byte(byte: u8) -> (answer: bool)
        ensures
            answer == is_name_part(byte),
    {
        (0x41 <= byte && byte <= 0x5a) || (0x61 <= byte && byte <= 0x7a) || byte == 0x5f || (0x30
            <= byte && byte <= 0x39)
    }

    fn scan_token(&mut self) -> (item: Option<TokenizerResult<Token>>)
        ensures
            final(self).input() == old(self).input(),
            old(self).on_its_line(),
            final(self).on_its_line(),
            ({
                let bytes = old(self).input();
                let (start, before) = skip_blanks(bytes, old(self).position(), old(self).column());
                &&& old(self).position() <= start <= bytes.len()
                &&& 0 <= before <= start
                &&& before == line_offset(bytes, start)
                &&& start < bytes.len() ==> {
                    &&& item is Some
                    &&& !is_blank(bytes[start]) && !is_line_break(bytes[start])
                    &&& scanned(item.unwrap()) == token_at(bytes, start, (before + 1) as usize)
                    &&& final(self).position() == token_end(bytes, start)
                    &&& final(self).column() == before + (token_end(bytes, start) - start)
                }
                &&& start == bytes.len() ==> {
                    &&& item is None
                    &&& final(self).position() == start
                    &&& final(self).column() == before
                }
            }),
    {
        let current = match self.consume_whitespace() {
            None => {
                return None;
            },
            Some(current) => current,
        };
        let mut lexeme: Vec<u8> = Vec::new();
        lexeme.push(current);
        proof {
            use_type_invariant(&*self);
            assert(lexeme@ =~= self.input@.subrange(self.place.0 - 1, self.place.0 as int));
        }
        let token = if current == 0x28 {
            self.add_token(TokenType::LeftParen, lexeme)
        } else if current == 0x29 {
            self.add_token(TokenType::RightParen, lexeme)
        } else if current == 0x2b {
            self.add_token(TokenType::Plus, lexeme)
        } else if current == 0x2d {
            self.add_token(TokenType::Minus, lexeme)
        } else if current == 0x2a {
            self.add_token(TokenType::Star, lexeme)
        } else if current == 0x3d {
            self.add_token(TokenType::Equal, lexeme)
        } else if current == 0x2f {
            self.add_token(TokenType::Slash, lexeme)
        } else if current == 0x5e {
            self.add_token(TokenType::Hat, lexeme)
        } else if 0x30 <= current && current <= 0x39 {
            self.consume_number(lexeme)
        } else if (0x41 <= current && current <= 0x5a) || (0x61 <= current && current <= 0x7a)
            || current == 0x5f {
            self.consume_identifier(lexeme)
        } else {
            Err(TokenizerError::UnknownCharacter(current, self.place.1))
        };
        proof {
            use_type_invariant(&*self);
            lemma_line_offset_bounds(self.input@, self.place.0 as int);
        }
        Some(token)
    }

    /// The next token, or the error for a byte that starts none; nothing
    /// once only blanks and line breaks are left. An unknown byte is
    /// consumed, so the call after an error goes on behind it.
    ///
    /// The token starts at the first byte from the scanner's place on that
    /// is neither blank nor line break, and its column, like that of an
    /// error, is one more than the number of bytes between the last line
    /// break before that byte and the byte, in whatever state the scanner
    /// is.
    pub fn next(&mut self) -> (item: Option<TokenizerResult<Token>>)
        ensures
            final(self).input() == old(self).input(),
            old(self).on_its_line(),
            final(self).on_its_line(),
            ({
                let bytes = old(self).input();
                let (start, before) = skip_blanks(bytes, old(self).position(), old(self).column());
                &&& old(self).position() <= start <= bytes.len()
                &&& 0 <= before <= start
                &&& before == line_offset(bytes, start)
                &&& start < bytes.len() ==> {
                    &&& item is Some
                    &&& !is_blank(bytes[start]) && !is_line_break(bytes[start])
                    &&& scanned(item.unwrap()) == token_at(bytes, start, (before + 1) as usize)
                    &&& final(self).position() == token_end(bytes, start)
                    &&& final(self).column() == before + (token_end(bytes, start) - start)
                }
                &&& start == bytes.len() ==> {
                    &&& item is None
                    &&& final(self).position() == start
                    &&& final(self).column() == before
                }
            }),
    {
        self.scan_token()
    }
}


/// How many bytes of its line precede the byte at `index`: those behind
/// the last line break before it, or all the bytes before it where there is
/// no line break.
pub open spec fn line_offset(bytes: Seq<u8>, index: int) -> int
    decreases index,
{
    if index <= 0 || index > bytes.len() {
        0
    } else if is_line_break(bytes[index - 1]) {
        0
    } else {
        line_offset(bytes, index - 1) + 1
    }
}

/// The tokens from `position` on, each with the column that its place in
/// its line gives it: one more than the number of bytes between the last
/// line break before the token and the token.
pub open spec fn tokens_by_line(bytes: Seq<u8>, position: int) -> Result<
    Seq<TokenView>,
    TokenizerError,
>
    decreases bytes.len() - position,
{
    let start = skip_blanks(bytes, position, 0).0;
    if 0 <= position <= start < bytes.len() {
        match token_at(bytes, start, (line_offset(bytes, start) + 1) as usize) {
            Err(error) => Err(error),
            Ok(token) => {
                proof {
                    lemma_token_end_bounds(bytes, start);
                }
                match tokens_by_line(bytes, token_end(bytes, start)) {
                    Err(error) => Err(error),
                    Ok(rest) => Ok(seq![token] + rest),
                }
            },
        }
    } else {
        Ok(Seq::empty())
    }
}

/// No more bytes of a line precede a byte than bytes of the input.
pub proof fn lemma_line_offset_bounds(bytes: Seq<u8>, index: int)
    ensures
        0 <= line_offset(bytes, index),
        0 <= index ==> line_offset(bytes, index) <= index,
    decreases index,
{
    if 0 < index <= bytes.len() && !is_line_break(bytes[index - 1]) {
        lemma_line_offset_bounds(bytes, index - 1);
    }
}

/// Skipping blanks keeps the count of the bytes of the line.
pub proof fn lemma_skip_keeps_offset(bytes: Seq<u8>, position: int, column: int)
    requires
        0 <= position <= bytes.len(),
    ensures
        skip_blanks(bytes, position, column).0 == skip_blanks(bytes, position, 0).0,
        column == line_offset(bytes, position) ==> skip_blanks(bytes, position, column).1
            == line_offset(bytes, skip_blanks(bytes, position, column).0),
    decreases bytes.len() - position,
{
    if position < bytes.len() && is_blank(bytes[position]) {
        lemma_skip_keeps_offset(bytes, position + 1, column + 1);
        lemma_skip_keeps_offset(bytes, position + 1, 1);
    } else if position < bytes.len() && is_line_break(bytes[position]) {
        lemma_skip_keeps_offset(bytes, position + 1, 0);
    }
}

/// Behind bytes that hold no line break, the line is longer by their
/// number.
proof fn lemma_offset_grows(bytes: Seq<u8>, start: int, end: int)
    requires
        0 <= start <= end <= bytes.len(),
        forall|i: int| start <= i < end ==> !is_line_break(#[trigger] bytes[i]),
    ensures
        line_offset(bytes, end) == line_offset(bytes, start) + (end - start),
    decreases end - start,
{
    if start < end {
        lemma_offset_grows(bytes, start, end - 1);
    }
}

/// The text of a token is a run of bytes of the input that holds neither
/// blank nor line break.
pub proof fn lemma_token_in_one_line(bytes: Seq<u8>, start: int)
    requires
        0 <= start < bytes.len(),
        !is_blank(bytes[start]),
        token_at(bytes, start, 1) is Ok,
    ensures
        start < token_end(bytes, start) <= bytes.len(),
        token_at(bytes, start, 1)->Ok_0.lexeme == text_of(
            bytes.subrange(start, token_end(bytes, start)),
        ),
        forall|i: int|
            start <= i < token_end(bytes, start) ==> !is_line_break(#[trigger] bytes[i])
                && !is_blank(bytes[i]),
{
    lemma_token_end_bounds(bytes, start);
    lemma_digits_end_bounds(bytes, start + 1);
    let whole_end = digits_end(bytes, start + 1);
    if has_point(bytes, whole_end) {
        lemma_digits_end_bounds(bytes, whole_end + 1);
    }
    lemma_name_end_bounds(bytes, start + 1);
}

proof fn lemma_tokens_from_by_line(bytes: Seq<u8>, position: int)
    requires
        0 <= position <= bytes.len(),
    ensures
        tokens_from(bytes, position, line_offset(bytes, position)) == tokens_by_line(
            bytes,
            position,
        ),
    decreases bytes.len() - position,
{
    let column = line_offset(bytes, position);
    lemma_skip_keeps_offset(bytes, position, column);
    lemma_skip_blanks_bounds(bytes, position, 0);
    let (start, before) = skip_blanks(bytes, position, column);
    if start < bytes.len() {
        if token_at(bytes, start, (before + 1) as usize) is Ok {
            let end = token_end(bytes, start);
            lemma_token_end_bounds(bytes, start);
            lemma_token_in_one_line(bytes, start);
            lemma_offset_grows(bytes, start, end);
            lemma_tokens_from_by_line(bytes, end);
        }
    }
}

/// The column of every token, and of the byte that an error names, is one
/// more than the number of bytes between the last line break before it and
/// itself: columns count from one and start again behind every line break.
pub proof fn lemma_columns_count_from_line_start(bytes: Seq<u8>)
    ensures
        tokens_of(bytes) == tokens_by_line(bytes, 0),
{
    lemma_tokens_from_by_line(bytes, 0);
}

/// `prefix` followed by the tokens of `rest`, or the error of `rest`.
pub open spec fn prepend_tokens(prefix: Seq<TokenView>, rest: Result<Seq<TokenView>, TokenizerError>) -> Result<
    Seq<TokenView>,
    TokenizerError,
> {
    match rest {
        Ok(tokens) => Ok(prefix + tokens),
        Err(error) => Err(error),
    }
}

/// What a scanned run stands for: the values of its tokens, or the error.
pub open spec fn scanned_run(run: Result<Vec<Token>, TokenizerError>) -> Result<
    Seq<TokenView>,
    TokenizerError,
> {
    match run {
        Ok(tokens) => Ok(token_views(tokens@)),
        Err(error) => Err(error),
    }
}

/// All the tokens of `input`, in order, or the first error of the scanner.
pub fn tokenize(input: Vec<u8>) -> (run: Result<Vec<Token>, TokenizerError>)
    ensures
        scanned_run(run) == tokens_of(input@),
{
    let ghost bytes = input@;
    let mut scanner = Tokenizer::new(input);
    let mut tokens: Vec<Token> = Vec::new();
    proof {
        if let Ok(all) = tokens_from(bytes, 0, 0) {
            assert(token_views(tokens@) + all =~= all);
        }
    }
    loop
        invariant
            bytes == input@,
            scanner.input() == bytes,
            0 <= scanner.column() <= scanner.position() <= bytes.len(),
            tokens_of(bytes) == prepend_tokens(
                token_views(tokens@),
                tokens_from(bytes, scanner.position(), scanner.column()),
            ),
        decreases bytes.len() - scanner.position(),
    {
        let ghost position = scanner.position();
        let ghost column = scanner.column();
        let ghost (start, before) = skip_blanks(bytes, position, column);
        proof {
            lemma_skip_blanks_bounds(bytes, position, column);
            if start < bytes.len() {
                lemma_token_end_bounds(bytes, start);
            }
        }
        match scanner.next() {
            None => {
                proof {
                    assert(tokens_from(bytes, position, column) == Ok::<
                        Seq<TokenView>,
                        TokenizerError,
                    >(Seq::empty()));
                    assert(token_views(tokens@) + Seq::<TokenView>::empty() =~= token_views(tokens@));
                }
                return Ok(tokens);
            },
            Some(Err(error)) => {
                return Err(error);
            },
            Some(Ok(token)) => {
                let ghost earlier = token_views(tokens@);
                tokens.push(token);
                proof {
                    let end = token_end(bytes, start);
                    let rest = tokens_from(bytes, end, before + (end - start));
                    assert(token_views(tokens@) =~= earlier.push(token@));
                    if rest is Ok {
                        assert(earlier.push(token@) + rest.unwrap() =~= earlier + (seq![token@]
                            + rest.unwrap()));
                    }
                }
            },
        }
    }
}

} // verus!
