//! Tokens, JSON values and errors, each with the mathematical model that the
//! contracts of the lexer, the parser and the printer speak of.
//!
//! A number is held as its decimal text, exactly as it stood in the input
//! (an optional `-`, digits, and an optional `.` followed by digits).
use vstd::prelude::*;

verus! {

/// What can go wrong while cutting the input into tokens.
#[derive(Debug, Clone, PartialEq)]
pub enum LexError {
    UnexpectedChar(char),
    UnexpectedEOF(String),
    UnterminatedString,
    InvalidEscape(String),
    InvalidUnicode(u32),
    InvalidHexDigit(char),
    InvalidNumber(String),
}

/// What can go wrong while building a value from tokens.
#[derive(Debug, Clone, PartialEq)]
pub enum ParseError {
    UnexpectedEOF,
    UnexpectedToken(String),
    ExpectedToken { expected: String, found: String },
}

/// One lexical unit of JSON text.
#[derive(Debug, Clone, PartialEq)]
pub enum Token {
    LeftBrace,
    RightBrace,
    LeftBracket,
    RightBracket,
    Colon,
    Comma,
    StringToken(String),
    /// The decimal text of a number.
    NumberToken(String),
    True,
    False,
    Null,
}

/// A JSON document as a tree. Object members keep their order and may
/// repeat a key.
#[derive(Debug, PartialEq)]
pub enum JsonValue {
    Object(Vec<(String, JsonValue)>),
    Array(Vec<JsonValue>),
    Str(String),
    /// The decimal text of a number.
    Number(String),
    Bool(bool),
    Null,
}

/// The model of a lexer error: messages by their characters.
pub enum LexErrorModel {
    UnexpectedChar(char),
    UnexpectedEOF(Seq<char>),
    UnterminatedString,
    InvalidEscape(Seq<char>),
    InvalidUnicode(u32),
    InvalidHexDigit(char),
    InvalidNumber(Seq<char>),
}

/// The model of a parser error: messages by their characters.
pub enum ParseErrorModel {
    UnexpectedEOF,
    UnexpectedToken(Seq<char>),
    ExpectedToken { expected: Seq<char>, found: Seq<char> },
}

/// The model of a token: strings and number texts by their characters.
pub enum TokenModel {
    LeftBrace,
    RightBrace,
    LeftBracket,
    RightBracket,
    Colon,
    Comma,
    Str(Seq<char>),
    Number(Seq<char>),
    True,
    False,
    Null,
}

/// The model of a value: strings and number texts by their characters,
/// children by their models.
pub enum ValueModel {
    Object(Seq<(Seq<char>, ValueModel)>),
    Array(Seq<ValueModel>),
    Str(Seq<char>),
    Number(Seq<char>),
    Bool(bool),
    Null,
}

impl View for LexError {
    type V = LexErrorModel;

    open spec fn view(&self) -> LexErrorModel {
        match self {
            LexError::UnexpectedChar(c) => LexErrorModel::UnexpectedChar(*c),
            LexError::UnexpectedEOF(m) => LexErrorModel::UnexpectedEOF(m@),
            LexError::UnterminatedString => LexErrorModel::UnterminatedString,
            LexError::InvalidEscape(m) => LexErrorModel::InvalidEscape(m@),
            LexError::InvalidUnicode(u) => LexErrorModel::InvalidUnicode(*u),
            LexError::InvalidHexDigit(c) => LexErrorModel::InvalidHexDigit(*c),
            LexError::InvalidNumber(m) => LexErrorModel::InvalidNumber(m@),
        }
    }
}

impl View for ParseError {
    type V = ParseErrorModel;

    open spec fn view(&self) -> ParseErrorModel {
        match self {
            ParseError::UnexpectedEOF => ParseErrorModel::UnexpectedEOF,
            ParseError::UnexpectedToken(m) => ParseErrorModel::UnexpectedToken(m@),
            ParseError::ExpectedToken { expected, found } => ParseErrorModel::ExpectedToken {
                expected: expected@,
                found: found@,
            },
        }
    }
}

impl View for Token {
    type V = TokenModel;

    open spec fn view(&self) -> TokenModel {
        match self {
            Token::LeftBrace => TokenModel::LeftBrace,
            Token::RightBrace => TokenModel::RightBrace,
            Token::LeftBracket => TokenModel::LeftBracket,
            Token::RightBracket => TokenModel::RightBracket,
            Token::Colon => TokenModel::Colon,
            Token::Comma => TokenModel::Comma,
            Token::StringToken(s) => TokenModel::Str(s@),
            Token::NumberToken(n) => TokenModel::Number(n@),
            Token::True => TokenModel::True,
            Token::False => TokenModel::False,
            Token::Null => TokenModel::Null,
        }
    }
}

/// The model of a value: strings by their characters, children by their models.
pub open spec fn value_model(v: JsonValue) -> ValueModel
    decreases v,
{
    match v {
        JsonValue::Object(pairs) => ValueModel::Object(
            Seq::new(
                pairs.len() as nat,
                |i: int|
                    if 0 <= i < pairs.len() {
                        (pairs@[i].0@, value_model(pairs@[i].1))
                    } else {
                        (Seq::empty(), ValueModel::Null)
                    },
            ),
        ),
        JsonValue::Array(items) => ValueModel::Array(
            Seq::new(
                items.len() as nat,
                |i: int|
                    if 0 <= i < items.len() {
                        value_model(items@[i])
                    } else {
                        ValueModel::Null
                    },
            ),
        ),
        JsonValue::Str(s) => ValueModel::Str(s@),
        JsonValue::Number(n) => ValueModel::Number(n@),
        JsonValue::Bool(b) => ValueModel::Bool(b),
        JsonValue::Null => ValueModel::Null,
    }
}

impl View for JsonValue {
    type V = ValueModel;

    open spec fn view(&self) -> ValueModel {
        value_model(*self)
    }
}

/// The models of a sequence of tokens.
pub open spec fn tokens_model(ts: Seq<Token>) -> Seq<TokenModel> {
    ts.map_values(|t: Token| t@)
}

/// The models of an object's members.
pub open spec fn members_model(pairs: Seq<(String, JsonValue)>) -> Seq<(Seq<char>, ValueModel)> {
    Seq::new(pairs.len(), |i: int| (pairs[i].0@, pairs[i].1@))
}

/// The models of an array's elements.
pub open spec fn elements_model(items: Seq<JsonValue>) -> Seq<ValueModel> {
    Seq::new(items.len(), |i: int| items[i]@)
}

pub proof fn lemma_object_model(pairs: Vec<(String, JsonValue)>)
    ensures
        JsonValue::Object(pairs)@ == ValueModel::Object(members_model(pairs@)),
{
    assert(members_model(pairs@) =~= (match JsonValue::Object(pairs)@ {
        ValueModel::Object(m) => m,
        _ => Seq::empty(),
    }));
}

pub proof fn lemma_array_model(items: Vec<JsonValue>)
    ensures
        JsonValue::Array(items)@ == ValueModel::Array(elements_model(items@)),
{
    assert(elements_model(items@) =~= (match JsonValue::Array(items)@ {
        ValueModel::Array(m) => m,
        _ => Seq::empty(),
    }));
}

/// A result seen through the views of its two sides.
pub open spec fn outcome<T: View, E: View>(r: Result<T, E>) -> Result<T::V, E::V> {
    match r {
        Ok(t) => Ok(t@),
        Err(e) => Err(e@),
    }
}

} // verus!

verus! {

impl Clone for JsonValue {
    /// A deep copy: the copy has the same model.
    fn clone(&self) -> (r: Self)
        ensures
            r@ == self@,
        decreases self,
    {
        match self {
            JsonValue::Object(pairs) => {
                proof {
                    lemma_object_model(*pairs);
                }
                let mut copy: Vec<(String, JsonValue)> = Vec::new();
                let mut i: usize = 0;
                while i < pairs.len()
                    invariant
                        i <= pairs.len(),
                        *self == JsonValue::Object(*pairs),
                        members_model(copy@) == members_model(pairs@).take(i as int),
                    decreases pairs.len() - i,
                {
                    proof {
                        assert(decreases_to!(*self => self->Object_0));
                        assert(decreases_to!(*pairs => pairs@));
                        assert(decreases_to!(pairs@ => pairs@[i as int]));
                        assert(decreases_to!(pairs@[i as int] => pairs@[i as int].1));
                    }
                    let key = pairs[i].0.clone();
                    let value = pairs[i].1.clone();
                    assert(value@ == pairs@[i as int].1@);
                    let ghost before = members_model(copy@);
                    copy.push((key, value));
                    assert(members_model(copy@) =~= before.push((key@, value@)));
                    assert(members_model(pairs@).take(i + 1) =~= before.push((key@, value@)));
                    i = i + 1;
                }
                proof {
                    lemma_object_model(copy);
                    assert(members_model(pairs@).take(i as int) =~= members_model(pairs@));
                }
                JsonValue::Object(copy)
            },
            JsonValue::Array(items) => {
                proof {
                    lemma_array_model(*items);
                }
                let mut copy: Vec<JsonValue> = Vec::new();
                let mut i: usize = 0;
                while i < items.len()
                    invariant
                        i <= items.len(),
                        *self == JsonValue::Array(*items),
                        elements_model(copy@) == elements_model(items@).take(i as int),
                    decreases items.len() - i,
                {
                    proof {
                        assert(decreases_to!(*self => self->Array_0));
                        assert(decreases_to!(*items => items@));
                        assert(decreases_to!(items@ => items@[i as int]));
                    }
                    let value = items[i].clone();
                    assert(value@ == items@[i as int]@);
                    let ghost before = elements_model(copy@);
                    copy.push(value);
                    assert(elements_model(copy@) =~= before.push(value@));
                    assert(elements_model(items@).take(i + 1) =~= before.push(value@));
                    i = i + 1;
                }
                proof {
                    lemma_array_model(copy);
                    assert(elements_model(items@).take(i as int) =~= elements_model(items@));
                }
                JsonValue::Array(copy)
            },
            JsonValue::Str(s) => JsonValue::Str(s.clone()),
            JsonValue::Number(n) => JsonValue::Number(n.clone()),
            JsonValue::Bool(b) => JsonValue::Bool(*b),
            JsonValue::Null => JsonValue::Null,
        }
    }
}

} // verus!
