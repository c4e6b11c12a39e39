//! The parser: it reads a sequence of tokens and builds the value they
//! write. Object members keep the order in which they were read.
use vstd::prelude::*;
use crate::value::{
    JsonValue, ParseError, ParseErrorModel, Token, TokenModel, ValueModel, elements_model,
    lemma_array_model, lemma_object_model, members_model, outcome, tokens_model,
};
use crate::text::{debug_str, debug_str_text};

verus! {

// ---------------------------------------------------------------------------
// What the parser computes
// ---------------------------------------------------------------------------

/// How a token is written in an error message: the name of its kind, with
/// a string in `Debug` form and a number as its text.
pub open spec fn token_text(t: TokenModel) -> Seq<char> {
    match t {
        TokenModel::LeftBrace => "LeftBrace"@,
        TokenModel::RightBrace => "RightBrace"@,
        TokenModel::LeftBracket => "LeftBracket"@,
        TokenModel::RightBracket => "RightBracket"@,
        TokenModel::Colon => "Colon"@,
        TokenModel::Comma => "Comma"@,
        TokenModel::Str(s) => "StringToken("@ + debug_str_text(s) + ")"@,
        TokenModel::Number(n) => "NumberToken("@ + n + ")"@,
        TokenModel::True => "True"@,
        TokenModel::False => "False"@,
        TokenModel::Null => "Null"@,
    }
}

pub open spec fn expected_token(expected: Seq<char>, found: Seq<char>) -> ParseErrorModel {
    ParseErrorModel::ExpectedToken { expected, found }
}

/// The value that starts at position `pos` of `ts`: the outcome, and the
/// number of tokens read (up to the error, on an error).
pub open spec fn parse_value_at(ts: Seq<TokenModel>, pos: int) -> (
    Result<ValueModel, ParseErrorModel>,
    nat,
)
    decreases ts.len() - pos, 0int,
{
    if !(0 <= pos < ts.len()) {
        (Err(ParseErrorModel::UnexpectedEOF), 0)
    } else {
        match ts[pos] {
            TokenModel::LeftBrace => if pos + 1 >= ts.len() {
                (Err(ParseErrorModel::UnexpectedEOF), 1)
            } else if ts[pos + 1] is RightBrace {
                (Ok(ValueModel::Object(Seq::empty())), 2)
            } else {
                match parse_members(ts, pos + 1, Seq::empty()) {
                    (Ok(members), n) => (Ok(ValueModel::Object(members)), n + 1),
                    (Err(e), n) => (Err(e), n + 1),
                }
            },
            TokenModel::LeftBracket => if pos + 1 >= ts.len() {
                (Err(ParseErrorModel::UnexpectedEOF), 1)
            } else if ts[pos + 1] is RightBracket {
                (Ok(ValueModel::Array(Seq::empty())), 2)
            } else {
                match parse_elements(ts, pos + 1, Seq::empty()) {
                    (Ok(items), n) => (Ok(ValueModel::Array(items)), n + 1),
                    (Err(e), n) => (Err(e), n + 1),
                }
            },
            TokenModel::True => (Ok(ValueModel::Bool(true)), 1),
            TokenModel::False => (Ok(ValueModel::Bool(false)), 1),
            TokenModel::Null => (Ok(ValueModel::Null), 1),
            TokenModel::Number(n) => (Ok(ValueModel::Number(n)), 1),
            TokenModel::Str(s) => (Ok(ValueModel::Str(s)), 1),
            TokenModel::RightBrace => (Err(ParseErrorModel::UnexpectedToken("}"@)), 0),
            TokenModel::RightBracket => (Err(ParseErrorModel::UnexpectedToken("]"@)), 0),
            TokenModel::Colon => (Err(ParseErrorModel::UnexpectedToken(":"@)), 0),
            TokenModel::Comma => (Err(ParseErrorModel::UnexpectedToken(","@)), 0),
        }
    }
}

/// The members of an object from position `q` (a key is due there), after
/// the members `acc` already read, up to and including the closing brace.
pub open spec fn parse_members(
    ts: Seq<TokenModel>,
    q: int,
    acc: Seq<(Seq<char>, ValueModel)>,
) -> (Result<Seq<(Seq<char>, ValueModel)>, ParseErrorModel>, nat)
    decreases ts.len() - q, 1int,
{
    if !(0 <= q < ts.len()) {
        (Err(expected_token("object key"@, "EOF"@)), 0)
    } else {
        match ts[q] {
            TokenModel::Str(key) => if q + 1 >= ts.len() {
                (Err(expected_token("colon"@, "EOF"@)), 1)
            } else if !(ts[q + 1] is Colon) {
                (Err(expected_token(":"@, token_text(ts[q + 1]))), 2)
            } else {
                match parse_value_at(ts, q + 2) {
                    (Err(e), n) => (Err(e), n + 2),
                    (Ok(v), n) => {
                        let r = q + 2 + n;
                        if r >= ts.len() {
                            (Err(ParseErrorModel::UnexpectedEOF), n + 2)
                        } else {
                            match ts[r] {
                                TokenModel::Comma => match parse_members(
                                    ts,
                                    r + 1,
                                    acc.push((key, v)),
                                ) {
                                    (res, m) => (res, n + 3 + m),
                                },
                                TokenModel::RightBrace => (Ok(acc.push((key, v))), n + 3),
                                t => (Err(ParseErrorModel::UnexpectedToken(token_text(t))), n + 2),
                            }
                        }
                    },
                }
            },
            t => (Err(expected_token("String Key"@, token_text(t))), 1),
        }
    }
}

/// The elements of an array from position `q` (a value is due there),
/// after the elements `acc` already read, up to and including the closing
/// bracket.
pub open spec fn parse_elements(ts: Seq<TokenModel>, q: int, acc: Seq<ValueModel>) -> (
    Result<Seq<ValueModel>, ParseErrorModel>,
    nat,
)
    decreases ts.len() - q, 1int,
{
    match parse_value_at(ts, q) {
        (Err(e), n) => (Err(e), n),
        (Ok(v), n) => {
            let r = q + n;
            if !(0 <= r < ts.len()) {
                (Err(ParseErrorModel::UnexpectedEOF), n)
            } else {
                match ts[r] {
                    TokenModel::Comma => match parse_elements(ts, r + 1, acc.push(v)) {
                        (res, m) => (res, n + 1 + m),
                    },
                    TokenModel::RightBracket => (Ok(acc.push(v)), n + 1),
                    t => (Err(ParseErrorModel::UnexpectedToken(token_text(t))), n),
                }
            }
        },
    }
}

pub proof fn lemma_parse_value_at_within(ts: Seq<TokenModel>, pos: int)
    requires
        0 <= pos <= ts.len(),
    ensures
        pos + parse_value_at(ts, pos).1 <= ts.len(),
    decreases ts.len() - pos, 0int,
{
    if pos < ts.len() {
        if ts[pos] is LeftBrace && pos + 1 < ts.len() && !(ts[pos + 1] is RightBrace) {
            lemma_parse_members_within(ts, pos + 1, Seq::empty());
        } else if ts[pos] is LeftBracket && pos + 1 < ts.len() && !(ts[pos + 1] is RightBracket) {
            lemma_parse_elements_within(ts, pos + 1, Seq::empty());
        }
    }
}

pub proof fn lemma_parse_members_within(
    ts: Seq<TokenModel>,
    q: int,
    acc: Seq<(Seq<char>, ValueModel)>,
)
    requires
        0 <= q <= ts.len(),
    ensures
        q + parse_members(ts, q, acc).1 <= ts.len(),
    decreases ts.len() - q, 1int,
{
    if q + 1 < ts.len() && ts[q] is Str && ts[q + 1] is Colon {
        lemma_parse_value_at_within(ts, q + 2);
        let (res, n) = parse_value_at(ts, q + 2);
        let r = q + 2 + n;
        if res is Ok && r < ts.len() && ts[r] is Comma {
            lemma_parse_members_within(ts, r + 1, acc.push((ts[q]->Str_0, res->Ok_0)));
        }
    }
}

pub proof fn lemma_parse_elements_within(ts: Seq<TokenModel>, q: int, acc: Seq<ValueModel>)
    requires
        0 <= q <= ts.len(),
    ensures
        q + parse_elements(ts, q, acc).1 <= ts.len(),
    decreases ts.len() - q, 1int,
{
    lemma_parse_value_at_within(ts, q);
    let (res, n) = parse_value_at(ts, q);
    let r = q + n;
    if res is Ok && r < ts.len() && ts[r] is Comma {
        lemma_parse_elements_within(ts, r + 1, acc.push(res->Ok_0));
    }
}

pub open spec fn trailing_message(t: TokenModel) -> Seq<char> {
    "Trailing tokens found after valid JSON value: "@ + token_text(t)
}

/// The value that a whole token sequence writes: one value, and nothing
/// after it.
pub open spec fn parse_tokens(ts: Seq<TokenModel>) -> Result<ValueModel, ParseErrorModel> {
    match parse_value_at(ts, 0) {
        (Err(e), _) => Err(e),
        (Ok(v), n) => if n < ts.len() {
            Err(ParseErrorModel::UnexpectedToken(trailing_message(ts[n as int])))
        } else {
            Ok(v)
        },
    }
}

} // verus!

verus! {

// ---------------------------------------------------------------------------
// The parser itself
// ---------------------------------------------------------------------------

/// How a token is written in an error message.
pub fn token_description(t: &Token) -> (r: String)
    ensures
        r@ == token_text(t@),
{
    match t {
        Token::LeftBrace => String::from_str("LeftBrace"),
        Token::RightBrace => String::from_str("RightBrace"),
        Token::LeftBracket => String::from_str("LeftBracket"),
        Token::RightBracket => String::from_str("RightBracket"),
        Token::Colon => String::from_str("Colon"),
        Token::Comma => String::from_str("Comma"),
        Token::StringToken(s) => {
            let mut r = String::from_str("StringToken(");
            let quoted = debug_str(s.as_str());
            r.append(quoted.as_str());
            r.append(")");
            r
        },
        Token::NumberToken(n) => {
            let mut r = String::from_str("NumberToken(");
            r.append(n.as_str());
            r.append(")");
            r
        },
        Token::True => String::from_str("True"),
        Token::False => String::from_str("False"),
        Token::Null => String::from_str("Null"),
    }
}

/// A sequence of tokens and a position in it.
pub struct Parser {
    tokens: Vec<Token>,
    pos: usize,
}

impl Parser {
    #[verifier::type_invariant]
    spec fn well_formed(self) -> bool {
        self.pos <= self.tokens.len()
    }

    /// The models of the tokens being read.
    pub closed spec fn tokens(&self) -> Seq<TokenModel> {
        tokens_model(self.tokens@)
    }

    /// The position of the next token to read; at most the number of tokens.
    pub closed spec fn position(&self) -> int {
        self.pos as int
    }

    /// A parser at the start of `tokens`.
    pub fn new(tokens: Vec<Token>) -> (p: Parser)
        ensures
            p.tokens() == tokens_model(tokens@),
            p.position() == 0,
            0 <= p.position() <= p.tokens().len(),
    {
        Parser { tokens, pos: 0 }
    }

    fn current(&self) -> (r: Result<&Token, ParseError>)
        ensures
            self.position() <= self.tokens().len(),
            match r {
                Ok(t) => self.position() < self.tokens().len() && t@ == self.tokens()[self.position()],
                Err(e) => self.position() >= self.tokens().len() && e@ == ParseErrorModel::UnexpectedEOF,
            },
    {
        proof {
            use_type_invariant(self);
        }
        if self.pos < self.tokens.len() {
            Ok(&self.tokens[self.pos])
        } else {
            Err(ParseError::UnexpectedEOF)
        }
    }

    fn advance(&mut self)
        requires
            old(self).position() < old(self).tokens().len(),
        ensures
            final(self).tokens() == old(self).tokens(),
            final(self).position() == old(self).position() + 1,
    {
        assert(self.pos < self.tokens.len());
        self.pos = self.pos + 1;
    }

    /// Takes the next token, by its index; at the end, an error that says
    /// what was due.
    fn expect(&mut self, description: &str) -> (r: Result<usize, ParseError>)
        ensures
            final(self).tokens() == old(self).tokens(),
            match r {
                Ok(i) => {
                    &&& i == old(self).position()
                    &&& i < old(self).tokens().len()
                    &&& final(self).position() == i + 1
                },
                Err(e) => {
                    &&& old(self).position() >= old(self).tokens().len()
                    &&& final(self).position() == old(self).position()
                    &&& e@ == expected_token(description@, "EOF"@)
                },
            },
    {
        proof {
            use_type_invariant(&*self);
        }
        if self.pos < self.tokens.len() {
            let i = self.pos;
            self.pos = self.pos + 1;
            Ok(i)
        } else {
            Err(
                ParseError::ExpectedToken {
                    expected: String::from_str(description),
                    found: String::from_str("EOF"),
                },
            )
        }
    }

    /// Reads one value from the current position: a literal, or an object
    /// or array with everything inside it up to its closing bracket.
    pub fn parse_value(&mut self) -> (r: Result<JsonValue, ParseError>)
        ensures
            final(self).tokens() == old(self).tokens(),
            ({
                let (out, n) = parse_value_at(old(self).tokens(), old(self).position());
                &&& outcome(r) == out
                &&& final(self).position() == old(self).position() + n
            }),
            0 <= final(self).position() <= final(self).tokens().len(),
        decreases old(self).tokens().len() - old(self).position(), 1int,
    {
        proof {
            use_type_invariant(&*self);
            lemma_parse_value_at_within(self.tokens(), self.position());
        }
        let t = match self.current() {
            Ok(t) => t,
            Err(e) => {
                return Err(e);
            },
        };
        match t {
            Token::LeftBrace => self.parse_object(),
            Token::LeftBracket => self.parse_array(),
            Token::True => {
                self.advance();
                Ok(JsonValue::Bool(true))
            },
            Token::False => {
                self.advance();
                Ok(JsonValue::Bool(false))
            },
            Token::Null => {
                self.advance();
                Ok(JsonValue::Null)
            },
            Token::NumberToken(n) => {
                let v = n.clone();
                self.advance();
                Ok(JsonValue::Number(v))
            },
            Token::StringToken(s) => {
                let v = s.clone();
                self.advance();
                Ok(JsonValue::Str(v))
            },
            Token::RightBrace => Err(ParseError::UnexpectedToken(String::from_str("}"))),
            Token::RightBracket => Err(ParseError::UnexpectedToken(String::from_str("]"))),
            Token::Colon => Err(ParseError::UnexpectedToken(String::from_str(":"))),
            Token::Comma => Err(ParseError::UnexpectedToken(String::from_str(","))),
        }
    }

    fn parse_object(&mut self) -> (r: Result<JsonValue, ParseError>)
        requires
            old(self).position() < old(self).tokens().len(),
            old(self).tokens()[old(self).position()] is LeftBrace,
        ensures
            final(self).tokens() == old(self).tokens(),
            ({
                let (out, n) = parse_value_at(old(self).tokens(), old(self).position());
                &&& outcome(r) == out
                &&& final(self).position() == old(self).position() + n
            }),
        decreases old(self).tokens().len() - old(self).position(), 0int,
    {
        let ghost ts = self.tokens();
        let ghost start = self.position();
        self.advance();
        let mut pairs: Vec<(String, JsonValue)> = Vec::new();
        let closing = match self.current() {
            Ok(Token::RightBrace) => true,
            Ok(_) => false,
            Err(e) => {
                return Err(e);
            },
        };
        if closing {
            self.advance();
            proof {
                lemma_object_model(pairs);
                assert(members_model(pairs@) =~= Seq::empty());
            }
            return Ok(JsonValue::Object(pairs));
        }
        assert(members_model(pairs@) =~= Seq::empty());
        loop
            invariant
                self.tokens() == ts,
                ts == old(self).tokens(),
                start == old(self).position(),
                start + 1 < ts.len(),
                ts[start] is LeftBrace,
                !(ts[start + 1] is RightBrace),
                start + 1 <= self.position() <= ts.len(),
                ({
                    let (res0, n0) = parse_members(ts, start + 1, Seq::empty());
                    let (res, m) = parse_members(ts, self.position(), members_model(pairs@));
                    &&& res0 == res
                    &&& n0 == self.position() - (start + 1) + m
                }),
            decreases ts.len() - self.position(),
        {
            let key_index = match self.expect("object key") {
                Ok(i) => i,
                Err(e) => {
                    return Err(e);
                },
            };
            let key = match &self.tokens[key_index] {
                Token::StringToken(s) => s.clone(),
                t => {
                    let found = token_description(t);
                    return Err(
                        ParseError::ExpectedToken { expected: String::from_str("String Key"), found },
                    );
                },
            };
            let colon_index = match self.expect("colon") {
                Ok(i) => i,
                Err(e) => {
                    return Err(e);
                },
            };
            match &self.tokens[colon_index] {
                Token::Colon => {},
                t => {
                    let found = token_description(t);
                    return Err(ParseError::ExpectedToken { expected: String::from_str(":"), found });
                },
            }
            let value = match self.parse_value() {
                Ok(v) => v,
                Err(e) => {
                    return Err(e);
                },
            };
            let ghost before = members_model(pairs@);
            pairs.push((key, value));
            assert(members_model(pairs@) =~= before.push((key@, value@)));
            let next_is_comma = match self.current() {
                Ok(Token::Comma) => true,
                Ok(Token::RightBrace) => false,
                Ok(t) => {
                    return Err(ParseError::UnexpectedToken(token_description(t)));
                },
                Err(e) => {
                    return Err(e);
                },
            };
            self.advance();
            if !next_is_comma {
                proof {
                    lemma_object_model(pairs);
                }
                return Ok(JsonValue::Object(pairs));
            }
        }
    }

    fn parse_array(&mut self) -> (r: Result<JsonValue, ParseError>)
        requires
            old(self).position() < old(self).tokens().len(),
            old(self).tokens()[old(self).position()] is LeftBracket,
        ensures
            final(self).tokens() == old(self).tokens(),
            ({
                let (out, n) = parse_value_at(old(self).tokens(), old(self).position());
                &&& outcome(r) == out
                &&& final(self).position() == old(self).position() + n
            }),
        decreases old(self).tokens().len() - old(self).position(), 0int,
    {
        let ghost ts = self.tokens();
        let ghost start = self.position();
        self.advance();
        let mut items: Vec<JsonValue> = Vec::new();
        let closing = match self.current() {
            Ok(Token::RightBracket) => true,
            Ok(_) => false,
            Err(e) => {
                return Err(e);
            },
        };
        if closing {
            self.advance();
            proof {
                lemma_array_model(items);
                assert(elements_model(items@) =~= Seq::empty());
            }
            return Ok(JsonValue::Array(items));
        }
        assert(elements_model(items@) =~= Seq::empty());
        loop
            invariant
                self.tokens() == ts,
                ts == old(self).tokens(),
                start == old(self).position(),
                start + 1 < ts.len(),
                ts[start] is LeftBracket,
                !(ts[start + 1] is RightBracket),
                start + 1 <= self.position() <= ts.len(),
                ({
                    let (res0, n0) = parse_elements(ts, start + 1, Seq::empty());
                    let (res, m) = parse_elements(ts, self.position(), elements_model(items@));
                    &&& res0 == res
                    &&& n0 == self.position() - (start + 1) + m
                }),
            decreases ts.len() - self.position(),
        {
            let value = match self.parse_value() {
                Ok(v) => v,
                Err(e) => {
                    return Err(e);
                },
            };
            let ghost before = elements_model(items@);
            items.push(value);
            assert(elements_model(items@) =~= before.push(value@));
            let next_is_comma = match self.current() {
                Ok(Token::Comma) => true,
                Ok(Token::RightBracket) => false,
                Ok(t) => {
                    return Err(ParseError::UnexpectedToken(token_description(t)));
                },
                Err(e) => {
                    return Err(e);
                },
            };
            self.advance();
            if !next_is_comma {
                proof {
                    lemma_array_model(items);
                }
                return Ok(JsonValue::Array(items));
            }
        }
    }
}

} // verus!

verus! {

/// Builds the value that `tokens` write: exactly one value, with no token
/// after it.
pub fn parse(tokens: Vec<Token>) -> (r: Result<JsonValue, ParseError>)
    ensures
        outcome(r) == parse_tokens(tokens_model(tokens@)),
{
    let mut parser = Parser::new(tokens);
    let value = match parser.parse_value() {
        Ok(v) => v,
        Err(e) => {
            return Err(e);
        },
    };
    if parser.pos < parser.tokens.len() {
        let mut message = String::from_str("Trailing tokens found after valid JSON value: ");
        let found = token_description(&parser.tokens[parser.pos]);
        message.append(found.as_str());
        return Err(ParseError::UnexpectedToken(message));
    }
    Ok(value)
}

} // verus!
