//! The lexer: it reads the UTF-8 bytes of the input one at a time and cuts
//! them into tokens.
//!
//! Inside a string, a byte that is neither a quote nor a backslash becomes
//! the character with that byte's number; escapes `\" \\ \/ \n \t \r \b \f`
//! and `\uXXXX` (four hex digits, a Unicode scalar value) are decoded.
use vstd::prelude::*;
use vstd::utf8::{encode_utf8, is_scalar};
use crate::value::{LexError, LexErrorModel, Token, TokenModel, tokens_model};
use crate::text::{push_char, char_from_u32};

verus! {

// Byte values of the ASCII characters that the lexer looks for.
pub const QUOTE: u8 = 34;
pub const BACKSLASH: u8 = 92;
pub const SLASH: u8 = 47;
pub const MINUS: u8 = 45;
pub const DOT: u8 = 46;
pub const DIGIT_0: u8 = 48;
pub const DIGIT_9: u8 = 57;
pub const SPACE: u8 = 32;
pub const TAB: u8 = 9;
pub const LINE_FEED: u8 = 10;
pub const CARRIAGE_RETURN: u8 = 13;
pub const LEFT_BRACE: u8 = 123;
pub const RIGHT_BRACE: u8 = 125;
pub const LEFT_BRACKET: u8 = 91;
pub const RIGHT_BRACKET: u8 = 93;
pub const COLON: u8 = 58;
pub const COMMA: u8 = 44;
pub const LOWER_A: u8 = 97;
pub const LOWER_F: u8 = 102;
pub const UPPER_A: u8 = 65;
pub const UPPER_F: u8 = 70;
pub const LOWER_N: u8 = 110;
pub const LOWER_T: u8 = 116;
pub const LOWER_R: u8 = 114;
pub const LOWER_B: u8 = 98;
pub const LOWER_U: u8 = 117;

// ---------------------------------------------------------------------------
// What each step of the lexer computes
// ---------------------------------------------------------------------------

/// The character that stands for a byte: the one with the same number.
pub open spec fn byte_char(c: u8) -> char {
    c as char
}

/// The characters that stand for a run of bytes.
pub open spec fn bytes_text(s: Seq<u8>) -> Seq<char> {
    s.map_values(|c: u8| byte_char(c))
}

pub open spec fn is_digit(c: u8) -> bool {
    DIGIT_0 <= c <= DIGIT_9
}

pub open spec fn is_space(c: u8) -> bool {
    c == SPACE || c == TAB || c == LINE_FEED || c == CARRIAGE_RETURN
}

/// The byte at `p`, if there is one.
pub open spec fn byte_at(b: Seq<u8>, p: int) -> Option<u8> {
    if 0 <= p < b.len() {
        Some(b[p])
    } else {
        None
    }
}

/// One byte further, but never past the end.
pub open spec fn step(b: Seq<u8>, p: int) -> int {
    if p < b.len() {
        p + 1
    } else {
        p
    }
}

/// The value of a hexadecimal digit.
pub open spec fn hex_digit_value(c: u8) -> Option<u32> {
    if DIGIT_0 <= c <= DIGIT_9 {
        Some((c - DIGIT_0) as u32)
    } else if LOWER_A <= c <= LOWER_F {
        Some((c - LOWER_A + 10) as u32)
    } else if UPPER_A <= c <= UPPER_F {
        Some((c - UPPER_A + 10) as u32)
    } else {
        None
    }
}

/// The character that a one-letter escape stands for.
pub open spec fn simple_escape(c: u8) -> Option<char> {
    if c == QUOTE {
        Some('"')
    } else if c == BACKSLASH {
        Some('\\')
    } else if c == SLASH {
        Some('/')
    } else if c == LOWER_N {
        Some('\n')
    } else if c == LOWER_T {
        Some('\t')
    } else if c == LOWER_R {
        Some('\r')
    } else if c == LOWER_B {
        Some('\x08')
    } else if c == LOWER_F {
        Some('\x0C')
    } else {
        None
    }
}

pub open spec fn keyword_message(name: Seq<char>) -> Seq<char> {
    "reading keyword '"@ + name + "'"@
}

/// Matching the bytes `kw` from position `p`: the outcome and the position
/// reached (the first byte that did not match, or the end).
pub open spec fn match_keyword(b: Seq<u8>, p: int, kw: Seq<u8>, name: Seq<char>) -> (
    Result<(), LexErrorModel>,
    int,
)
    decreases kw.len(),
{
    if kw.len() == 0 {
        (Ok(()), p)
    } else if !(0 <= p < b.len()) {
        (Err(LexErrorModel::UnexpectedEOF(keyword_message(name))), p)
    } else if b[p] != kw[0] {
        (Err(LexErrorModel::UnexpectedChar(byte_char(b[p]))), p)
    } else {
        match_keyword(b, p + 1, kw.drop_first(), name)
    }
}

/// Reading `count` more hex digits from `p` onto the value `acc`.
pub open spec fn hex_escape(b: Seq<u8>, p: int, count: nat, acc: u32) -> (
    Result<u32, LexErrorModel>,
    int,
)
    decreases count,
{
    if count == 0 {
        (Ok(acc), p)
    } else if !(0 <= p < b.len()) {
        (Err(LexErrorModel::UnexpectedEOF("Unterminated unicode escape"@)), p)
    } else {
        match hex_digit_value(b[p]) {
            None => (Err(LexErrorModel::InvalidHexDigit(byte_char(b[p]))), p),
            Some(d) => hex_escape(b, p + 1, (count - 1) as nat, (acc * 16 + d) as u32),
        }
    }
}

pub proof fn lemma_hex_escape_position(b: Seq<u8>, p: int, count: nat, acc: u32)
    requires
        0 <= p <= b.len(),
    ensures
        p <= hex_escape(b, p, count, acc).1 <= b.len(),
        hex_escape(b, p, count, acc).0 is Ok ==> hex_escape(b, p, count, acc).1 == p + count,
    decreases count,
{
    if count > 0 && p < b.len() {
        if let Some(d) = hex_digit_value(b[p]) {
            lemma_hex_escape_position(b, p + 1, (count - 1) as nat, (acc * 16 + d) as u32);
        }
    }
}

/// The rest of a string literal from position `p`, with `acc` decoded so
/// far: the characters up to the closing quote and the position after it.
pub open spec fn string_body(b: Seq<u8>, p: int, acc: Seq<char>) -> (
    Result<Seq<char>, LexErrorModel>,
    int,
)
    decreases b.len() - p,
{
    if !(0 <= p < b.len()) {
        (Err(LexErrorModel::UnterminatedString), p)
    } else if b[p] == QUOTE {
        (Ok(acc), p + 1)
    } else if b[p] == BACKSLASH {
        let q = p + 1;
        if q >= b.len() {
            (Err(LexErrorModel::UnexpectedEOF("Unterminated escape sequence"@)), q)
        } else if let Some(c) = simple_escape(b[q]) {
            string_body(b, q + 1, acc.push(c))
        } else if b[q] == LOWER_U {
            proof {
                lemma_hex_escape_position(b, q + 1, 4, 0);
            }
            match hex_escape(b, q + 1, 4, 0) {
                (Err(e), r) => (Err(e), r),
                (Ok(cp), r) => if is_scalar(cp) {
                    string_body(b, r, acc.push(cp as char))
                } else {
                    (Err(LexErrorModel::InvalidUnicode(cp)), r)
                },
            }
        } else {
            (Err(LexErrorModel::InvalidEscape("\\"@.push(byte_char(b[q])))), q)
        }
    } else {
        string_body(b, p + 1, acc.push(byte_char(b[p])))
    }
}

pub proof fn lemma_string_body_position(b: Seq<u8>, p: int, acc: Seq<char>)
    requires
        0 <= p <= b.len(),
    ensures
        p <= string_body(b, p, acc).1 <= b.len(),
        string_body(b, p, acc).0 is Ok ==> p < string_body(b, p, acc).1,
    decreases b.len() - p,
{
    if p < b.len() && b[p] != QUOTE {
        if b[p] == BACKSLASH {
            let q = p + 1;
            if q < b.len() {
                if let Some(c) = simple_escape(b[q]) {
                    lemma_string_body_position(b, q + 1, acc.push(c));
                } else if b[q] == LOWER_U {
                    lemma_hex_escape_position(b, q + 1, 4, 0);
                    let (res, r) = hex_escape(b, q + 1, 4, 0);
                    if let Ok(cp) = res {
                        if is_scalar(cp) {
                            lemma_string_body_position(b, r, acc.push(cp as char));
                        }
                    }
                }
            }
        } else {
            lemma_string_body_position(b, p + 1, acc.push(byte_char(b[p])));
        }
    }
}

/// The first position at or after `i` that does not hold a digit.
pub open spec fn digits_end(b: Seq<u8>, i: int) -> int
    decreases b.len() - i,
{
    if 0 <= i < b.len() && is_digit(b[i]) {
        digits_end(b, i + 1)
    } else {
        i
    }
}

pub proof fn lemma_digits_end(b: Seq<u8>, i: int)
    requires
        0 <= i <= b.len(),
    ensures
        i <= digits_end(b, i) <= b.len(),
        forall|k: int| i <= k < digits_end(b, i) ==> is_digit(#[trigger] b[k]),
        digits_end(b, i) < b.len() ==> !is_digit(b[digits_end(b, i)]),
    decreases b.len() - i,
{
    if i < b.len() && is_digit(b[i]) {
        lemma_digits_end(b, i + 1);
    }
}

/// A number from position `p`: an optional minus sign, digits, and an
/// optional point followed by digits. The text is a number when it holds at
/// least one digit (what the standard library's decimal parser asks of such
/// text); otherwise it is an `InvalidNumber`.
pub open spec fn number_scan(b: Seq<u8>, p: int) -> (Result<Seq<char>, LexErrorModel>, int) {
    let a = if byte_at(b, p) == Some(MINUS) {
        p + 1
    } else {
        p
    };
    let d = digits_end(b, a);
    let e = if byte_at(b, d) == Some(DOT) {
        digits_end(b, d + 1)
    } else {
        d
    };
    let text = bytes_text(b.subrange(p, e));
    if d > a || e > d + 1 {
        (Ok(text), e)
    } else {
        (Err(LexErrorModel::InvalidNumber(text)), e)
    }
}

pub proof fn lemma_number_scan_position(b: Seq<u8>, p: int)
    requires
        0 <= p < b.len(),
        b[p] == MINUS || is_digit(b[p]),
    ensures
        p < number_scan(b, p).1 <= b.len(),
{
    let a = if byte_at(b, p) == Some(MINUS) {
        p + 1
    } else {
        p
    };
    lemma_digits_end(b, a);
    let d = digits_end(b, a);
    if byte_at(b, d) == Some(DOT) {
        lemma_digits_end(b, d + 1);
    }
}

/// The token that a single punctuation byte stands for.
pub open spec fn punctuation(c: u8) -> Option<TokenModel> {
    if c == LEFT_BRACE {
        Some(TokenModel::LeftBrace)
    } else if c == RIGHT_BRACE {
        Some(TokenModel::RightBrace)
    } else if c == LEFT_BRACKET {
        Some(TokenModel::LeftBracket)
    } else if c == RIGHT_BRACKET {
        Some(TokenModel::RightBracket)
    } else if c == COLON {
        Some(TokenModel::Colon)
    } else if c == COMMA {
        Some(TokenModel::Comma)
    } else {
        None
    }
}

pub proof fn lemma_match_keyword_position(b: Seq<u8>, p: int, kw: Seq<u8>, name: Seq<char>)
    requires
        0 <= p <= b.len(),
    ensures
        p <= match_keyword(b, p, kw, name).1 <= b.len(),
        match_keyword(b, p, kw, name).0 is Ok ==> match_keyword(b, p, kw, name).1 == p + kw.len(),
    decreases kw.len(),
{
    if kw.len() > 0 && p < b.len() && b[p] == kw[0] {
        lemma_match_keyword_position(b, p + 1, kw.drop_first(), name);
    }
}

/// The keyword that starts with the byte `c`, and its token.
pub open spec fn keyword_for(c: u8) -> (Seq<char>, TokenModel) {
    if c == LOWER_T {
        ("true"@, TokenModel::True)
    } else if c == LOWER_F {
        ("false"@, TokenModel::False)
    } else {
        ("null"@, TokenModel::Null)
    }
}

pub proof fn lemma_keyword_not_empty(c: u8)
    ensures
        encode_utf8(keyword_for(c).0).len() > 0,
{
    reveal_strlit("true");
    reveal_strlit("false");
    reveal_strlit("null");
    let name = keyword_for(c).0;
    assert(name.len() > 0);
    assert(encode_utf8(name) == vstd::utf8::encode_scalar(name[0] as u32) + encode_utf8(
        name.drop_first(),
    ));
}

/// The tokens of the bytes from position `p`, after the tokens `acc`
/// already read.
pub open spec fn lex_tokens(b: Seq<u8>, p: int, acc: Seq<TokenModel>) -> Result<
    Seq<TokenModel>,
    LexErrorModel,
>
    decreases b.len() - p,
{
    if !(0 <= p < b.len()) {
        Ok(acc)
    } else {
        let c = b[p];
        if is_space(c) {
            lex_tokens(b, p + 1, acc)
        } else if let Some(t) = punctuation(c) {
            lex_tokens(b, p + 1, acc.push(t))
        } else if c == LOWER_T || c == LOWER_F || c == LOWER_N {
            let (name, t) = keyword_for(c);
            proof {
                lemma_keyword_not_empty(c);
                lemma_match_keyword_position(b, p, encode_utf8(name), name);
            }
            match match_keyword(b, p, encode_utf8(name), name) {
                (Err(e), _) => Err(e),
                (Ok(()), q) => lex_tokens(b, q, acc.push(t)),
            }
        } else if c == QUOTE {
            proof {
                lemma_string_body_position(b, p + 1, Seq::empty());
            }
            match string_body(b, p + 1, Seq::empty()) {
                (Err(e), _) => Err(e),
                (Ok(s), q) => lex_tokens(b, q, acc.push(TokenModel::Str(s))),
            }
        } else if c == MINUS || is_digit(c) {
            proof {
                lemma_number_scan_position(b, p);
            }
            match number_scan(b, p) {
                (Err(e), _) => Err(e),
                (Ok(n), q) => lex_tokens(b, q, acc.push(TokenModel::Number(n))),
            }
        } else {
            Err(LexErrorModel::UnexpectedChar(byte_char(c)))
        }
    }
}

} // verus!

verus! {

// ---------------------------------------------------------------------------
// The lexer itself
// ---------------------------------------------------------------------------

/// The character of a one-letter escape.
fn simple_escape_char(c: u8) -> (r: Option<char>)
    ensures
        r == simple_escape(c),
{
    if c == QUOTE {
        Some('"')
    } else if c == BACKSLASH {
        Some('\\')
    } else if c == SLASH {
        Some('/')
    } else if c == LOWER_N {
        Some('\n')
    } else if c == LOWER_T {
        Some('\t')
    } else if c == LOWER_R {
        Some('\r')
    } else if c == LOWER_B {
        Some('\x08')
    } else if c == LOWER_F {
        Some('\x0C')
    } else {
        None
    }
}

/// The bytes of the input and a position in them.
pub struct Lexer {
    input: Vec<u8>,
    pos: usize,
}

impl Lexer {
    #[verifier::type_invariant]
    spec fn well_formed(self) -> bool {
        self.pos <= self.input.len()
    }

    /// The bytes being read.
    pub closed spec fn bytes(&self) -> Seq<u8> {
        self.input@
    }

    /// The position of the next byte to read; at most the number of bytes.
    pub closed spec fn position(&self) -> int {
        self.pos as int
    }

    /// A lexer at the start of the UTF-8 bytes of `input`.
    pub fn new(input: &str) -> (l: Lexer)
        ensures
            l.bytes() == encode_utf8(input@),
            l.position() == 0,
    {
        Lexer { input: vstd::slice::slice_to_vec(input.as_bytes()), pos: 0 }
    }

    /// The byte at the current position, or `None` at the end.
    pub fn current(&self) -> (c: Option<u8>)
        ensures
            c == byte_at(self.bytes(), self.position()),
            0 <= self.position() <= self.bytes().len(),
    {
        proof {
            use_type_invariant(self);
        }
        if self.pos < self.input.len() {
            Some(self.input[self.pos])
        } else {
            None
        }
    }

    /// Moves one byte on; at the end, stays there.
    pub fn advance(&mut self)
        ensures
            final(self).bytes() == old(self).bytes(),
            final(self).position() == step(old(self).bytes(), old(self).position()),
            0 <= final(self).position() <= final(self).bytes().len(),
    {
        proof {
            use_type_invariant(&*self);
        }
        if self.pos < self.input.len() {
            self.pos = self.pos + 1;
        }
    }

    /// Reads the bytes of `keyword`. On a byte that differs it stops there
    /// with `UnexpectedChar`; at the end it reports `UnexpectedEOF`.
    pub fn read_keyword(&mut self, keyword: &str) -> (r: Result<(), LexError>)
        ensures
            final(self).bytes() == old(self).bytes(),
            ({
                let (out, q) = match_keyword(
                    old(self).bytes(),
                    old(self).position(),
                    encode_utf8(keyword@),
                    keyword@,
                );
                &&& crate::value::outcome(r) == out
                &&& final(self).position() == q
            }),
    {
        let ghost b = self.bytes();
        let ghost name = keyword@;
        let kw = keyword.as_bytes();
        let mut j: usize = 0;
        assert(kw@.skip(0) =~= kw@);
        while j < kw.len()
            invariant
                self.bytes() == b,
                b == old(self).bytes(),
                name == keyword@,
                kw@ == encode_utf8(name),
                j <= kw@.len(),
                match_keyword(b, old(self).position(), kw@, name) == match_keyword(
                    b,
                    self.position(),
                    kw@.skip(j as int),
                    name,
                ),
            decreases kw@.len() - j,
        {
            let ghost rest = kw@.skip(j as int);
            match self.current() {
                Some(c) => {
                    if c == kw[j] {
                        self.advance();
                        assert(rest.drop_first() =~= kw@.skip(j + 1));
                    } else {
                        return Err(LexError::UnexpectedChar(c as char));
                    }
                },
                None => {
                    let mut message = String::from_str("reading keyword '");
                    message.append(keyword);
                    message.append("'");
                    return Err(LexError::UnexpectedEOF(message));
                },
            }
            j = j + 1;
        }
        assert(kw@.skip(j as int).len() == 0);
        Ok(())
    }

    /// Reads four hex digits and returns the number they write.
    pub fn read_unicode_escape(&mut self) -> (r: Result<u32, LexError>)
        ensures
            final(self).bytes() == old(self).bytes(),
            ({
                let (out, q) = hex_escape(old(self).bytes(), old(self).position(), 4, 0);
                &&& crate::value::outcome(r) == out
                &&& final(self).position() == q
            }),
    {
        let ghost b = self.bytes();
        let mut value: u32 = 0;
        let mut k: usize = 0;
        while k < 4
            invariant
                self.bytes() == b,
                b == old(self).bytes(),
                k <= 4,
                value < (if k == 0 {
                    1int
                } else if k == 1 {
                    16
                } else if k == 2 {
                    256
                } else if k == 3 {
                    4096
                } else {
                    65536
                }),
                hex_escape(b, old(self).position(), 4, 0) == hex_escape(
                    b,
                    self.position(),
                    (4 - k) as nat,
                    value,
                ),
            decreases 4 - k,
        {
            match self.current() {
                Some(c) => {
                    let digit: u32 = if DIGIT_0 <= c && c <= DIGIT_9 {
                        (c - DIGIT_0) as u32
                    } else if LOWER_A <= c && c <= LOWER_F {
                        (c - LOWER_A + 10) as u32
                    } else if UPPER_A <= c && c <= UPPER_F {
                        (c - UPPER_A + 10) as u32
                    } else {
                        return Err(LexError::InvalidHexDigit(c as char));
                    };
                    value = value * 16 + digit;
                    self.advance();
                },
                None => {
                    return Err(
                        LexError::UnexpectedEOF(String::from_str("Unterminated unicode escape")),
                    );
                },
            }
            k = k + 1;
        }
        Ok(value)
    }

    /// Reads a string literal: skips the opening quote, then decodes up to
    /// and including the closing quote.
    pub fn read_string(&mut self) -> (r: Result<String, LexError>)
        ensures
            final(self).bytes() == old(self).bytes(),
            ({
                let (out, q) = string_body(
                    old(self).bytes(),
                    step(old(self).bytes(), old(self).position()),
                    Seq::empty(),
                );
                &&& crate::value::outcome(r) == out
                &&& final(self).position() == q
            }),
    {
        let ghost b = self.bytes();
        let ghost start = step(b, self.position());
        self.advance();
        let mut result = String::new();
        loop
            invariant
                self.bytes() == b,
                b == old(self).bytes(),
                start == step(b, old(self).position()),
                0 <= self.position() <= b.len(),
                string_body(b, start, Seq::empty()) == string_body(b, self.position(), result@),
            decreases b.len() - self.position(),
        {
            let ghost p = self.position();
            match self.current() {
                None => {
                    return Err(LexError::UnterminatedString);
                },
                Some(c) => {
                    if c == QUOTE {
                        self.advance();
                        return Ok(result);
                    } else if c == BACKSLASH {
                        self.advance();
                        match self.current() {
                            None => {
                                return Err(
                                    LexError::UnexpectedEOF(
                                        String::from_str("Unterminated escape sequence"),
                                    ),
                                );
                            },
                            Some(e) => {
                                match simple_escape_char(e) {
                                    Some(ch) => {
                                        push_char(&mut result, ch);
                                        self.advance();
                                    },
                                    None => {
                                        if e == LOWER_U {
                                            self.advance();
                                            proof {
                                                lemma_hex_escape_position(b, p + 2, 4, 0);
                                            }
                                            let cp = match self.read_unicode_escape() {
                                                Ok(v) => v,
                                                Err(err) => {
                                                    return Err(err);
                                                },
                                            };
                                            match char_from_u32(cp) {
                                                Some(ch) => push_char(&mut result, ch),
                                                None => {
                                                    return Err(LexError::InvalidUnicode(cp));
                                                },
                                            }
                                        } else {
                                            let mut message = String::from_str("\\");
                                            push_char(&mut message, e as char);
                                            return Err(LexError::InvalidEscape(message));
                                        }
                                    },
                                }
                            },
                        }
                    } else {
                        push_char(&mut result, c as char);
                        self.advance();
                    }
                },
            }
        }
    }

    /// Reads digits onto `text` up to the first byte that is not a digit.
    fn read_digits(&mut self, text: &mut String)
        ensures
            final(self).bytes() == old(self).bytes(),
            final(self).position() == digits_end(old(self).bytes(), old(self).position()),
            final(text)@ == old(text)@ + bytes_text(
                old(self).bytes().subrange(old(self).position(), final(self).position()),
            ),
    {
        let ghost b = self.bytes();
        let ghost p = self.position();
        proof {
            use_type_invariant(&*self);
        }
        loop
            invariant
                self.bytes() == b,
                b == old(self).bytes(),
                p == old(self).position(),
                p <= self.position() <= b.len(),
                digits_end(b, p) == digits_end(b, self.position()),
                text@ == old(text)@ + bytes_text(b.subrange(p, self.position())),
            ensures
                self.position() == digits_end(b, p),
            decreases b.len() - self.position(),
        {
            let ghost q = self.position();
            match self.current() {
                Some(c) => {
                    if DIGIT_0 <= c && c <= DIGIT_9 {
                        push_char(text, c as char);
                        self.advance();
                        assert(bytes_text(b.subrange(p, q + 1)) =~= bytes_text(
                            b.subrange(p, q),
                        ).push(byte_char(c)));
                    } else {
                        break ;
                    }
                },
                None => {
                    break ;
                },
            }
        }
    }

    /// Reads the text of a number: an optional minus sign, digits, and an
    /// optional point followed by digits. Text without a single digit is an
    /// `InvalidNumber`.
    pub fn read_number(&mut self) -> (r: Result<String, LexError>)
        ensures
            final(self).bytes() == old(self).bytes(),
            ({
                let (out, q) = number_scan(old(self).bytes(), old(self).position());
                &&& crate::value::outcome(r) == out
                &&& final(self).position() == q
            }),
    {
        let ghost b = self.bytes();
        let ghost p = self.position();
        let mut text = String::new();
        match self.current() {
            Some(c) => {
                if c == MINUS {
                    push_char(&mut text, c as char);
                    self.advance();
                    assert(bytes_text(b.subrange(p, p + 1)) =~= seq![byte_char(c)]);
                }
            },
            None => {},
        }
        assert(text@ =~= bytes_text(b.subrange(p, self.position())));
        let sign_end = self.pos;
        self.read_digits(&mut text);
        let digits_stop = self.pos;
        proof {
            lemma_digits_end(b, sign_end as int);
        }
        let mut point = false;
        match self.current() {
            Some(c) => {
                if c == DOT {
                    point = true;
                    push_char(&mut text, c as char);
                    self.advance();
                }
            },
            None => {},
        }
        if point {
            self.read_digits(&mut text);
            proof {
                lemma_digits_end(b, digits_stop + 1);
            }
        }
        let end = self.pos;
        proof {
            assert(bytes_text(b.subrange(p, end as int)) =~= bytes_text(
                b.subrange(p, sign_end as int),
            ) + bytes_text(b.subrange(sign_end as int, digits_stop as int)) + (if point {
                seq![byte_char(DOT)] + bytes_text(b.subrange(digits_stop + 1, end as int))
            } else {
                Seq::empty()
            }));
        }
        proof {
            let a = if byte_at(b, p) == Some(MINUS) {
                p + 1
            } else {
                p
            };
            assert(sign_end == a);
            assert(digits_stop == digits_end(b, a));
            assert(point == (byte_at(b, digits_stop as int) == Some(DOT)));
            assert(text@ == bytes_text(b.subrange(p, end as int)));
        }
        if digits_stop > sign_end || (point && end - digits_stop > 1) {
            Ok(text)
        } else {
            Err(LexError::InvalidNumber(text))
        }
    }
}

} // verus!

verus! {

/// The result of `tokenize` seen through the models of the tokens.
pub open spec fn lex_outcome(r: Result<Vec<Token>, LexError>) -> Result<Seq<TokenModel>, LexErrorModel> {
    match r {
        Ok(ts) => Ok(tokens_model(ts@)),
        Err(e) => Err(e@),
    }
}

/// The tokens of a whole text.
pub open spec fn tokens_of(input: Seq<char>) -> Result<Seq<TokenModel>, LexErrorModel> {
    lex_tokens(encode_utf8(input), 0, Seq::empty())
}

fn push_token(tokens: &mut Vec<Token>, t: Token)
    ensures
        tokens_model(final(tokens)@) == tokens_model(old(tokens)@).push(t@),
{
    tokens.push(t);
    assert(tokens_model(tokens@) =~= tokens_model(old(tokens)@).push(t@));
}

/// Cuts `input` into tokens, skipping white space between them.
pub fn tokenize(input: &str) -> (r: Result<Vec<Token>, LexError>)
    ensures
        lex_outcome(r) == tokens_of(input@),
{
    let mut lexer = Lexer::new(input);
    let mut tokens: Vec<Token> = Vec::new();
    let ghost b = lexer.bytes();
    assert(tokens_model(tokens@) =~= Seq::<TokenModel>::empty());
    loop
        invariant
            lexer.bytes() == b,
            b == encode_utf8(input@),
            0 <= lexer.position() <= b.len(),
            tokens_of(input@) == lex_tokens(b, lexer.position(), tokens_model(tokens@)),
        decreases b.len() - lexer.position(),
    {
        let ghost p = lexer.position();
        let ghost acc = tokens_model(tokens@);
        match lexer.current() {
            None => {
                return Ok(tokens);
            },
            Some(c) => {
                if c == SPACE || c == TAB || c == LINE_FEED || c == CARRIAGE_RETURN {
                    lexer.advance();
                } else if c == LEFT_BRACE {
                    push_token(&mut tokens, Token::LeftBrace);
                    lexer.advance();
                } else if c == RIGHT_BRACE {
                    push_token(&mut tokens, Token::RightBrace);
                    lexer.advance();
                } else if c == LEFT_BRACKET {
                    push_token(&mut tokens, Token::LeftBracket);
                    lexer.advance();
                } else if c == RIGHT_BRACKET {
                    push_token(&mut tokens, Token::RightBracket);
                    lexer.advance();
                } else if c == COLON {
                    push_token(&mut tokens, Token::Colon);
                    lexer.advance();
                } else if c == COMMA {
                    push_token(&mut tokens, Token::Comma);
                    lexer.advance();
                } else if c == LOWER_T || c == LOWER_F || c == LOWER_N {
                    let (keyword, t) = if c == LOWER_T {
                        ("true", Token::True)
                    } else if c == LOWER_F {
                        ("false", Token::False)
                    } else {
                        ("null", Token::Null)
                    };
                    proof {
                        lemma_keyword_not_empty(c);
                        let name = keyword_for(c).0;
                        lemma_match_keyword_position(b, p, encode_utf8(name), name);
                    }
                    match lexer.read_keyword(keyword) {
                        Ok(()) => {},
                        Err(e) => {
                            return Err(e);
                        },
                    }
                    push_token(&mut tokens, t);
                } else if c == QUOTE {
                    proof {
                        lemma_string_body_position(b, p + 1, Seq::empty());
                    }
                    match lexer.read_string() {
                        Ok(s) => push_token(&mut tokens, Token::StringToken(s)),
                        Err(e) => {
                            return Err(e);
                        },
                    }
                } else if c == MINUS || (DIGIT_0 <= c && c <= DIGIT_9) {
                    proof {
                        lemma_number_scan_position(b, p);
                    }
                    match lexer.read_number() {
                        Ok(n) => push_token(&mut tokens, Token::NumberToken(n)),
                        Err(e) => {
                            return Err(e);
                        },
                    }
                } else {
                    return Err(LexError::UnexpectedChar(c as char));
                }
            },
        }
    }
}

} // verus!
