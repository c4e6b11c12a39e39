//! What holds of the lexer, the parser and the printer together.
//!
//! Every value has a canonical token sequence (`value_tokens`). The parser
//! reads exactly that value back from it, and the printer writes a text
//! that the lexer cuts into exactly those tokens, as long as the value's
//! strings print as themselves and its numbers are number texts.
use vstd::prelude::*;
use crate::value::{LexErrorModel, ParseErrorModel, TokenModel, ValueModel};
use vstd::utf8::{encode_utf8, is_ascii_chars};
use crate::lexer::{
    COLON, COMMA, DOT, LEFT_BRACE, LEFT_BRACKET, LOWER_F, LOWER_N, LOWER_T, MINUS, QUOTE, RIGHT_BRACE,
    RIGHT_BRACKET, SPACE, keyword_for, lex_tokens, tokens_of, byte_at, bytes_text, digits_end, is_digit, match_keyword, number_scan, string_body,
};
use crate::display::{elements_text, member_text, members_text, value_text};
use crate::parser::{parse_elements, parse_members, parse_tokens, parse_value_at, trailing_message};

verus! {

// ---------------------------------------------------------------------------
// The tokens of a value
// ---------------------------------------------------------------------------

/// The tokens that write a value.
pub open spec fn value_tokens(v: ValueModel) -> Seq<TokenModel>
    decreases v,
{
    match v {
        ValueModel::Null => seq![TokenModel::Null],
        ValueModel::Bool(b) => if b {
            seq![TokenModel::True]
        } else {
            seq![TokenModel::False]
        },
        ValueModel::Number(n) => seq![TokenModel::Number(n)],
        ValueModel::Str(s) => seq![TokenModel::Str(s)],
        ValueModel::Array(items) => seq![TokenModel::LeftBracket] + elements_tokens(items) + seq![
            TokenModel::RightBracket,
        ],
        ValueModel::Object(members) => seq![TokenModel::LeftBrace] + members_tokens(members)
            + seq![TokenModel::RightBrace],
    }
}

/// The tokens of the elements, separated by commas.
pub open spec fn elements_tokens(items: Seq<ValueModel>) -> Seq<TokenModel>
    decreases items,
{
    if items.len() == 0 {
        Seq::empty()
    } else if items.len() == 1 {
        value_tokens(items[0])
    } else {
        proof {
            assert(decreases_to!(items => items.drop_last()));
        }
        elements_tokens(items.drop_last()) + seq![TokenModel::Comma] + value_tokens(items.last())
    }
}

/// The tokens of one member: the key, a colon, and the value's tokens.
pub open spec fn member_tokens(key: Seq<char>, value: Seq<TokenModel>) -> Seq<TokenModel> {
    seq![TokenModel::Str(key), TokenModel::Colon] + value
}

/// The tokens of the members, separated by commas.
pub open spec fn members_tokens(members: Seq<(Seq<char>, ValueModel)>) -> Seq<TokenModel>
    decreases members,
{
    if members.len() == 0 {
        Seq::empty()
    } else if members.len() == 1 {
        member_tokens(members[0].0, value_tokens(members[0].1))
    } else {
        proof {
            assert(decreases_to!(members => members.drop_last()));
        }
        members_tokens(members.drop_last()) + seq![TokenModel::Comma] + member_tokens(
            members.last().0,
            value_tokens(members.last().1),
        )
    }
}

/// `part` stands in `s` from position `p` on.
pub open spec fn stands_at<A>(s: Seq<A>, p: int, part: Seq<A>) -> bool {
    &&& 0 <= p
    &&& p + part.len() <= s.len()
    &&& forall|i: int| 0 <= i < part.len() ==> s[p + i] == part[i]
}

proof fn lemma_stands_at_concat<A>(s: Seq<A>, p: int, x: Seq<A>, y: Seq<A>)
    ensures
        stands_at(s, p, x + y) <==> (stands_at(s, p, x) && stands_at(s, p + x.len(), y)),
{
    if stands_at(s, p + x.len(), y) && stands_at(s, p, x) {
        assert forall|i: int| 0 <= i < (x + y).len() implies s[p + i] == (x + y)[i] by {
            if i >= x.len() {
                assert(s[p + x.len() + (i - x.len())] == y[i - x.len()]);
            }
        }
    }
    if stands_at(s, p, x + y) {
        assert forall|i: int| 0 <= i < y.len() implies s[p + x.len() + i] == y[i] by {
            assert(s[p + (x.len() + i)] == (x + y)[x.len() + i]);
        }
        assert forall|i: int| 0 <= i < x.len() implies s[p + i] == x[i] by {
            assert(s[p + i] == (x + y)[i]);
        }
    }
}

proof fn lemma_stands_at_one<A>(s: Seq<A>, p: int, x: A)
    requires
        stands_at(s, p, seq![x]),
    ensures
        0 <= p < s.len(),
        s[p] == x,
{
    assert(s[p + 0] == seq![x][0]);
}

proof fn lemma_value_tokens_start(v: ValueModel)
    ensures
        value_tokens(v).len() >= 1,
        !(value_tokens(v)[0] is RightBracket),
        !(value_tokens(v)[0] is RightBrace),
        !(value_tokens(v)[0] is Comma),
        !(value_tokens(v)[0] is Colon),
{
}

/// The elements' tokens split after the first element.
proof fn lemma_elements_tokens_first(items: Seq<ValueModel>)
    requires
        items.len() >= 2,
    ensures
        elements_tokens(items) == value_tokens(items[0]) + seq![TokenModel::Comma]
            + elements_tokens(items.drop_first()),
    decreases items.len(),
{
    if items.len() == 2 {
        assert(items.drop_last() =~= seq![items[0]]);
        assert(items.drop_first() =~= seq![items[1]]);
        assert(elements_tokens(items.drop_first()) == value_tokens(items[1]));
        assert(elements_tokens(items.drop_last()) == value_tokens(items[0]));
    } else {
        lemma_elements_tokens_first(items.drop_last());
        assert(items.drop_last().drop_first() =~= items.drop_first().drop_last());
        assert(items.drop_last()[0] == items[0]);
        assert(items.drop_first().last() == items.last());
        assert(elements_tokens(items) =~= value_tokens(items[0]) + seq![TokenModel::Comma]
            + elements_tokens(items.drop_first()));
    }
}

/// The members' tokens split after the first member.
proof fn lemma_members_tokens_first(members: Seq<(Seq<char>, ValueModel)>)
    requires
        members.len() >= 2,
    ensures
        members_tokens(members) == member_tokens(members[0].0, value_tokens(members[0].1))
            + seq![TokenModel::Comma] + members_tokens(members.drop_first()),
    decreases members.len(),
{
    if members.len() == 2 {
        assert(members.drop_last() =~= seq![members[0]]);
        assert(members.drop_first() =~= seq![members[1]]);
        assert(members_tokens(members.drop_first()) == member_tokens(
            members[1].0,
            value_tokens(members[1].1),
        ));
        assert(members_tokens(members.drop_last()) == member_tokens(
            members[0].0,
            value_tokens(members[0].1),
        ));
    } else {
        lemma_members_tokens_first(members.drop_last());
        assert(members.drop_last().drop_first() =~= members.drop_first().drop_last());
        assert(members.drop_last()[0] == members[0]);
        assert(members.drop_first().last() == members.last());
        assert(members_tokens(members) =~= member_tokens(
            members[0].0,
            value_tokens(members[0].1),
        ) + seq![TokenModel::Comma] + members_tokens(members.drop_first()));
    }
}

} // verus!

verus! {

// ---------------------------------------------------------------------------
// The parser reads a value back from its tokens
// ---------------------------------------------------------------------------

proof fn lemma_parse_value_tokens(ts: Seq<TokenModel>, pos: int, v: ValueModel)
    requires
        stands_at(ts, pos, value_tokens(v)),
    ensures
        parse_value_at(ts, pos) == (Ok::<ValueModel, crate::value::ParseErrorModel>(v), value_tokens(v).len()),
    decreases v,
{
    assert(ts[pos + 0] == value_tokens(v)[0]);
    match v {
        ValueModel::Array(items) => {
            let inner = elements_tokens(items);
            lemma_stands_at_concat(ts, pos, seq![TokenModel::LeftBracket] + inner, seq![TokenModel::RightBracket]);
            lemma_stands_at_concat(ts, pos, seq![TokenModel::LeftBracket], inner);
            lemma_stands_at_concat(ts, pos + 1, inner, seq![TokenModel::RightBracket]);
            if items.len() == 0 {
                lemma_stands_at_one(ts, pos + 1, TokenModel::RightBracket);
                assert(items =~= Seq::empty());
            } else {
                assert(decreases_to!(v => v->Array_0));
                lemma_parse_elements_tokens(ts, pos + 1, Seq::empty(), items);
                lemma_first_element_token(items);
                assert(ts[pos + 1 + 0] == inner[0]);
                assert(Seq::<ValueModel>::empty() + items =~= items);
            }
        },
        ValueModel::Object(members) => {
            let inner = members_tokens(members);
            lemma_stands_at_concat(ts, pos, seq![TokenModel::LeftBrace] + inner, seq![TokenModel::RightBrace]);
            lemma_stands_at_concat(ts, pos, seq![TokenModel::LeftBrace], inner);
            lemma_stands_at_concat(ts, pos + 1, inner, seq![TokenModel::RightBrace]);
            if members.len() == 0 {
                lemma_stands_at_one(ts, pos + 1, TokenModel::RightBrace);
                assert(members =~= Seq::empty());
            } else {
                assert(decreases_to!(v => v->Object_0));
                lemma_parse_members_tokens(ts, pos + 1, Seq::empty(), members);
                lemma_first_member_token(members);
                assert(ts[pos + 1 + 0] == inner[0]);
                assert(Seq::<(Seq<char>, ValueModel)>::empty() + members =~= members);
            }
        },
        _ => {},
    }
}

proof fn lemma_first_element_token(items: Seq<ValueModel>)
    requires
        items.len() >= 1,
    ensures
        elements_tokens(items).len() >= 1,
        elements_tokens(items)[0] == value_tokens(items[0])[0],
{
    lemma_value_tokens_start(items[0]);
    if items.len() >= 2 {
        lemma_elements_tokens_first(items);
    }
}

proof fn lemma_first_member_token(members: Seq<(Seq<char>, ValueModel)>)
    requires
        members.len() >= 1,
    ensures
        members_tokens(members).len() >= 1,
        members_tokens(members)[0] == TokenModel::Str(members[0].0),
{
    if members.len() >= 2 {
        lemma_members_tokens_first(members);
    }
}

proof fn lemma_parse_elements_tokens(
    ts: Seq<TokenModel>,
    q: int,
    acc: Seq<ValueModel>,
    items: Seq<ValueModel>,
)
    requires
        items.len() >= 1,
        stands_at(ts, q, elements_tokens(items) + seq![TokenModel::RightBracket]),
    ensures
        parse_elements(ts, q, acc) == (
            Ok::<Seq<ValueModel>, crate::value::ParseErrorModel>(acc + items),
            elements_tokens(items).len() + 1,
        ),
    decreases items,
{
    let first = value_tokens(items[0]);
    lemma_stands_at_concat(ts, q, elements_tokens(items), seq![TokenModel::RightBracket]);
    assert(decreases_to!(items => items[0]));
    if items.len() == 1 {
        lemma_parse_value_tokens(ts, q, items[0]);
        lemma_stands_at_one(ts, q + first.len(), TokenModel::RightBracket);
        assert(acc.push(items[0]) =~= acc + items);
    } else {
        let rest = items.drop_first();
        lemma_elements_tokens_first(items);
        lemma_stands_at_concat(ts, q, first + seq![TokenModel::Comma], elements_tokens(rest));
        lemma_stands_at_concat(ts, q, first, seq![TokenModel::Comma]);
        lemma_parse_value_tokens(ts, q, items[0]);
        lemma_stands_at_one(ts, q + first.len(), TokenModel::Comma);
        lemma_stands_at_concat(
            ts,
            q + first.len() + 1,
            elements_tokens(rest),
            seq![TokenModel::RightBracket],
        );
        assert(decreases_to!(items => rest));
        lemma_parse_elements_tokens(ts, q + first.len() + 1, acc.push(items[0]), rest);
        assert(acc.push(items[0]) + rest =~= acc + items);
    }
}

proof fn lemma_parse_members_tokens(
    ts: Seq<TokenModel>,
    q: int,
    acc: Seq<(Seq<char>, ValueModel)>,
    members: Seq<(Seq<char>, ValueModel)>,
)
    requires
        members.len() >= 1,
        stands_at(ts, q, members_tokens(members) + seq![TokenModel::RightBrace]),
    ensures
        parse_members(ts, q, acc) == (
            Ok::<Seq<(Seq<char>, ValueModel)>, crate::value::ParseErrorModel>(acc + members),
            members_tokens(members).len() + 1,
        ),
    decreases members,
{
    let (key, v) = members[0];
    let first = member_tokens(key, value_tokens(v));
    lemma_stands_at_concat(ts, q, members_tokens(members), seq![TokenModel::RightBrace]);
    assert(decreases_to!(members => members[0]));
    assert(decreases_to!(members[0] => members[0].1));
    if members.len() == 1 {
        lemma_stands_at_concat(ts, q, seq![TokenModel::Str(key), TokenModel::Colon], value_tokens(v));
        assert(ts[q + 0] == TokenModel::Str(key));
        assert(ts[q + 1] == TokenModel::Colon);
        lemma_parse_value_tokens(ts, q + 2, v);
        lemma_stands_at_one(ts, q + first.len(), TokenModel::RightBrace);
        assert(acc.push((key, v)) =~= acc + members);
    } else {
        let rest = members.drop_first();
        lemma_members_tokens_first(members);
        lemma_stands_at_concat(ts, q, first + seq![TokenModel::Comma], members_tokens(rest));
        lemma_stands_at_concat(ts, q, first, seq![TokenModel::Comma]);
        lemma_stands_at_concat(ts, q, seq![TokenModel::Str(key), TokenModel::Colon], value_tokens(v));
        assert(ts[q + 0] == TokenModel::Str(key));
        assert(ts[q + 1] == TokenModel::Colon);
        lemma_parse_value_tokens(ts, q + 2, v);
        lemma_stands_at_one(ts, q + first.len(), TokenModel::Comma);
        lemma_stands_at_concat(
            ts,
            q + first.len() + 1,
            members_tokens(rest),
            seq![TokenModel::RightBrace],
        );
        assert(decreases_to!(members => rest));
        lemma_parse_members_tokens(ts, q + first.len() + 1, acc.push((key, v)), rest);
        assert(acc.push((key, v)) + rest =~= acc + members);
    }
}

/// The parser reads back every value from its tokens.
pub proof fn lemma_parse_of_value_tokens(v: ValueModel)
    ensures
        parse_tokens(value_tokens(v)) == Ok::<ValueModel, crate::value::ParseErrorModel>(v),
{
    let ts = value_tokens(v);
    assert(stands_at(ts, 0, ts));
    lemma_parse_value_tokens(ts, 0, v);
}

} // verus!

verus! {

// ---------------------------------------------------------------------------
// The lexer reads the printed text of a value as the value's tokens
// ---------------------------------------------------------------------------

/// A character that the printer writes inside quotes and the lexer reads
/// back as itself: ASCII, neither a double quote nor a backslash.
pub open spec fn is_plain_char(c: char) -> bool {
    &&& (c as u32) < 128
    &&& c != '"'
    &&& c != '\\'
}

pub open spec fn is_plain_text(s: Seq<char>) -> bool {
    forall|i: int| 0 <= i < s.len() ==> is_plain_char(#[trigger] s[i])
}

pub open spec fn is_digit_char(c: char) -> bool {
    '0' <= c <= '9'
}

/// The text of a number as the lexer reads it: a minus sign or a digit
/// first, then digits with at most one point among them, and at least one
/// digit in all.
pub open spec fn is_number_text(n: Seq<char>) -> bool {
    &&& n.len() > 0
    &&& (n[0] == '-' || is_digit_char(n[0]))
    &&& forall|i: int| 1 <= i < n.len() ==> is_digit_char(#[trigger] n[i]) || n[i] == '.'
    &&& forall|i: int, j: int|
        0 <= i < n.len() && 0 <= j < n.len() && #[trigger] n[i] == '.' && #[trigger] n[j] == '.'
            ==> i == j
    &&& exists|i: int| 0 <= i < n.len() && is_digit_char(#[trigger] n[i])
}

/// A value whose printed text reads back as the value: its strings and
/// keys are plain text and its numbers are number texts.
pub open spec fn printable(v: ValueModel) -> bool
    decreases v,
{
    match v {
        ValueModel::Str(s) => is_plain_text(s),
        ValueModel::Number(n) => is_number_text(n),
        ValueModel::Array(items) => forall|i: int|
            0 <= i < items.len() ==> printable(#[trigger] items[i]),
        ValueModel::Object(members) => forall|i: int|
            0 <= i < members.len() ==> is_plain_text(#[trigger] members[i].0) && printable(
                members[i].1,
            ),
        _ => true,
    }
}

/// The bytes of an ASCII text.
pub open spec fn ascii_bytes(t: Seq<char>) -> Seq<u8> {
    t.map_values(|c: char| c as u8)
}

/// What may follow the text of a value inside a printed text: the end, a
/// comma, or a closing bracket or brace.
pub open spec fn delimits(b: Seq<u8>, q: int) -> bool {
    q == b.len() || (0 <= q < b.len() && (b[q] == crate::lexer::COMMA || b[q]
        == crate::lexer::RIGHT_BRACKET || b[q] == crate::lexer::RIGHT_BRACE))
}

proof fn lemma_ascii_bytes_concat(x: Seq<char>, y: Seq<char>)
    ensures
        ascii_bytes(x + y) == ascii_bytes(x) + ascii_bytes(y),
{
    assert(ascii_bytes(x + y) =~= ascii_bytes(x) + ascii_bytes(y));
}

proof fn lemma_match_keyword_exact(b: Seq<u8>, p: int, kw: Seq<u8>, name: Seq<char>)
    requires
        stands_at(b, p, kw),
    ensures
        match_keyword(b, p, kw, name) == (Ok::<(), LexErrorModel>(()), p + kw.len()),
    decreases kw.len(),
{
    if kw.len() > 0 {
        assert(b[p + 0] == kw[0]);
        assert forall|i: int| 0 <= i < kw.drop_first().len() implies b[(p + 1) + i]
            == kw.drop_first()[i] by {
            assert(b[p + (i + 1)] == kw[i + 1]);
        }
        lemma_match_keyword_exact(b, p + 1, kw.drop_first(), name);
    }
}

proof fn lemma_string_body_plain(b: Seq<u8>, i: int, acc: Seq<char>, s: Seq<char>)
    requires
        is_plain_text(s),
        stands_at(b, i, ascii_bytes(s) + seq![crate::lexer::QUOTE]),
    ensures
        string_body(b, i, acc) == (Ok::<Seq<char>, LexErrorModel>(acc + s), i + s.len() + 1),
    decreases s.len(),
{
    lemma_stands_at_concat(b, i, ascii_bytes(s), seq![crate::lexer::QUOTE]);
    if s.len() == 0 {
        lemma_stands_at_one(b, i, crate::lexer::QUOTE);
        assert(acc + s =~= acc);
    } else {
        let c = s[0];
        assert(is_plain_char(c));
        assert(b[i + 0] == ascii_bytes(s)[0]);
        assert(b[i] == c as u8);
        assert((c as u8) as char == c) by {
            vstd::utf8::char_u32_cast(c, c as u32);
        }
        let rest = s.drop_first();
        assert(ascii_bytes(s) =~= seq![c as u8] + ascii_bytes(rest));
        lemma_stands_at_concat(b, i, seq![c as u8], ascii_bytes(rest) + seq![crate::lexer::QUOTE]);
        assert(ascii_bytes(s) + seq![crate::lexer::QUOTE] =~= seq![c as u8] + (ascii_bytes(rest) + seq![crate::lexer::QUOTE]));
        lemma_string_body_plain(b, i + 1, acc.push(c), rest);
        assert(acc.push(c) + rest =~= acc + s);
    }
}

} // verus!

verus! {

proof fn lemma_digits_end_exact(b: Seq<u8>, i: int, m: int)
    requires
        0 <= i <= m <= b.len(),
        forall|k: int| i <= k < m ==> is_digit(#[trigger] b[k]),
        m == b.len() || !is_digit(b[m]),
    ensures
        digits_end(b, i) == m,
    decreases m - i,
{
    if i < m {
        lemma_digits_end_exact(b, i + 1, m);
    }
}

proof fn lemma_ascii_char_round_trip(c: char)
    requires
        (c as u32) < 128,
    ensures
        ((c as u8) as char) == c,
        (c as u8) as u32 == c as u32,
{
    vstd::utf8::char_u32_cast(c, c as u32);
}

proof fn lemma_number_scan_text(b: Seq<u8>, p: int, n: Seq<char>)
    requires
        is_number_text(n),
        stands_at(b, p, ascii_bytes(n)),
        delimits(b, p + n.len()),
    ensures
        number_scan(b, p) == (Ok::<Seq<char>, LexErrorModel>(n), p + n.len()),
{
    let len = n.len() as int;
    assert forall|i: int| 0 <= i < len implies b[p + i] == (#[trigger] n[i]) as u8 && (n[i]
        as u32) < 128 by {
        assert(b[p + i] == ascii_bytes(n)[i]);
        if i > 0 {
            assert(is_digit_char(n[i]) || n[i] == '.');
        }
    }
    assert forall|i: int| 0 <= i < len implies is_digit(b[p + i]) == is_digit_char(
        #[trigger] n[i],
    ) && (b[p + i] == DOT) == (n[i] == '.') && (b[p + i] == MINUS) == (n[i] == '-') by {
        lemma_ascii_char_round_trip(n[i]);
    }
    let a = if byte_at(b, p) == Some(MINUS) {
        p + 1
    } else {
        p
    };
    assert(a == p + 1 <==> n[0] == '-');
    let has_point = exists|i: int| 0 <= i < len && n[i] == '.';
    let k = if has_point {
        choose|i: int| 0 <= i < len && n[i] == '.'
    } else {
        len
    };
    assert(a <= p + k);
    assert forall|i: int| a - p <= i < k implies is_digit_char(#[trigger] n[i]) by {
        if i == 0 {
        } else {
            if n[i] == '.' {
                assert(has_point);
            }
        }
    }
    assert forall|x: int| a <= x < p + k implies is_digit(#[trigger] b[x]) by {
        assert(is_digit_char(n[x - p]));
    }
    lemma_digits_end_exact(b, a, p + k);
    let d = digits_end(b, a);
    assert(d == p + k);
    if has_point {
        assert(byte_at(b, d) == Some(DOT));
        assert forall|i: int| k + 1 <= i < len implies is_digit_char(#[trigger] n[i]) by {
            if n[i] == '.' {
                assert(i == k);
            }
        }
        assert forall|x: int| d + 1 <= x < p + len implies is_digit(#[trigger] b[x]) by {
            assert(is_digit_char(n[x - p]));
        }
        lemma_digits_end_exact(b, d + 1, p + len);
    } else {
        assert(byte_at(b, d) != Some(DOT));
    }
    let e = if byte_at(b, d) == Some(DOT) {
        digits_end(b, d + 1)
    } else {
        d
    };
    assert(e == p + len);
    let j = choose|j: int| 0 <= j < len && is_digit_char(n[j]);
    if j < k {
        assert(j >= a - p);
    } else {
        assert(j != k);
    }
    assert(d > a || e > d + 1);
    assert(bytes_text(b.subrange(p, e)) =~= n) by {
        assert forall|i: int| 0 <= i < len implies #[trigger] bytes_text(b.subrange(p, e))[i]
            == n[i] by {
            lemma_ascii_char_round_trip(n[i]);
        }
    }
}

} // verus!

verus! {

/// The bytes of the fixed pieces of printed text.
proof fn lemma_fixed_text_bytes()
    ensures
        ascii_bytes("["@) == seq![LEFT_BRACKET],
        ascii_bytes("]"@) == seq![RIGHT_BRACKET],
        ascii_bytes("{"@) == seq![LEFT_BRACE],
        ascii_bytes("}"@) == seq![RIGHT_BRACE],
        ascii_bytes("\""@) == seq![QUOTE],
        ascii_bytes(", "@) == seq![COMMA, SPACE],
        ascii_bytes(": "@) == seq![COLON, SPACE],
        ascii_bytes("null"@) == encode_utf8("null"@),
        ascii_bytes("true"@) == encode_utf8("true"@),
        ascii_bytes("false"@) == encode_utf8("false"@),
        ascii_bytes("null"@)[0] == LOWER_N,
        ascii_bytes("true"@)[0] == LOWER_T,
        ascii_bytes("false"@)[0] == LOWER_F,
{
    reveal_strlit("[");
    reveal_strlit("]");
    reveal_strlit("{");
    reveal_strlit("}");
    reveal_strlit("\"");
    reveal_strlit(", ");
    reveal_strlit(": ");
    reveal_strlit("null");
    reveal_strlit("true");
    reveal_strlit("false");
    assert(ascii_bytes("["@) =~= seq![LEFT_BRACKET]);
    assert(ascii_bytes("]"@) =~= seq![RIGHT_BRACKET]);
    assert(ascii_bytes("{"@) =~= seq![LEFT_BRACE]);
    assert(ascii_bytes("}"@) =~= seq![RIGHT_BRACE]);
    assert(ascii_bytes("\""@) =~= seq![QUOTE]);
    assert(ascii_bytes(", "@) =~= seq![COMMA, SPACE]);
    assert(ascii_bytes(": "@) =~= seq![COLON, SPACE]);
    vstd::utf8::is_ascii_chars_encode_utf8("null"@);
    vstd::utf8::is_ascii_chars_encode_utf8("true"@);
    vstd::utf8::is_ascii_chars_encode_utf8("false"@);
    assert(ascii_bytes("null"@) =~= encode_utf8("null"@));
    assert(ascii_bytes("true"@) =~= encode_utf8("true"@));
    assert(ascii_bytes("false"@) =~= encode_utf8("false"@));
}

} // verus!

verus! {

proof fn lemma_stands_at_text(b: Seq<u8>, p: int, x: Seq<char>, y: Seq<char>)
    requires
        stands_at(b, p, ascii_bytes(x + y)),
    ensures
        stands_at(b, p, ascii_bytes(x)),
        stands_at(b, p + x.len(), ascii_bytes(y)),
{
    lemma_ascii_bytes_concat(x, y);
    lemma_stands_at_concat(b, p, ascii_bytes(x), ascii_bytes(y));
}

/// A keyword in the text is read as its token.
proof fn lemma_lex_keyword(b: Seq<u8>, p: int, acc: Seq<TokenModel>, c: u8)
    requires
        c == LOWER_T || c == LOWER_F || c == LOWER_N,
        stands_at(b, p, ascii_bytes(keyword_for(c).0)),
    ensures
        lex_tokens(b, p, acc) == lex_tokens(
            b,
            p + keyword_for(c).0.len(),
            acc.push(keyword_for(c).1),
        ),
{
    lemma_fixed_text_bytes();
    reveal_strlit("null");
    reveal_strlit("true");
    reveal_strlit("false");
    let name = keyword_for(c).0;
    assert(name.len() > 0);
    assert(b[p + 0] == ascii_bytes(name)[0]);
    lemma_match_keyword_exact(b, p, encode_utf8(name), name);
}

/// The printed text of a printable value, followed by what may follow a
/// value, is read as the value's tokens.
#[verifier::spinoff_prover]
proof fn lemma_lex_value_text(b: Seq<u8>, p: int, acc: Seq<TokenModel>, v: ValueModel)
    requires
        printable(v),
        stands_at(b, p, ascii_bytes(value_text(v))),
        delimits(b, p + value_text(v).len()),
    ensures
        lex_tokens(b, p, acc) == lex_tokens(
            b,
            p + value_text(v).len(),
            acc + value_tokens(v),
        ),
    decreases v,
{
    lemma_fixed_text_bytes();
    match v {
        ValueModel::Null => {
            lemma_lex_keyword(b, p, acc, LOWER_N);
            assert(acc.push(TokenModel::Null) =~= acc + value_tokens(v));
        },
        ValueModel::Bool(x) => {
            if x {
                lemma_lex_keyword(b, p, acc, LOWER_T);
                assert(acc.push(TokenModel::True) =~= acc + value_tokens(v));
            } else {
                lemma_lex_keyword(b, p, acc, LOWER_F);
                assert(acc.push(TokenModel::False) =~= acc + value_tokens(v));
            }
        },
        ValueModel::Number(n) => {
            lemma_ascii_char_round_trip(n[0]);
            assert(b[p + 0] == ascii_bytes(n)[0]);
            lemma_number_scan_text(b, p, n);
            assert(acc.push(TokenModel::Number(n)) =~= acc + value_tokens(v));
        },
        ValueModel::Str(s) => {
            lemma_stands_at_text(b, p, "\""@ + s, "\""@);
            lemma_stands_at_text(b, p, "\""@, s);
            lemma_stands_at_one(b, p, QUOTE);
            lemma_stands_at_concat(b, p + 1, ascii_bytes(s), seq![QUOTE]);
            lemma_string_body_plain(b, p + 1, Seq::empty(), s);
            assert(Seq::<char>::empty() + s =~= s);
            assert(acc.push(TokenModel::Str(s)) =~= acc + value_tokens(v));
        },
        ValueModel::Array(items) => {
            let inner = elements_text(items);
            lemma_stands_at_text(b, p, "["@ + inner, "]"@);
            lemma_stands_at_text(b, p, "["@, inner);
            lemma_stands_at_one(b, p, LEFT_BRACKET);
            lemma_stands_at_one(b, p + 1 + inner.len(), RIGHT_BRACKET);
            let acc1 = acc.push(TokenModel::LeftBracket);
            assert(lex_tokens(b, p, acc) == lex_tokens(b, p + 1, acc1));
            if items.len() == 0 {
                assert(inner.len() == 0);
                assert(lex_tokens(b, p + 1, acc1) == lex_tokens(
                    b,
                    p + 2,
                    acc1.push(TokenModel::RightBracket),
                ));
                assert(acc1.push(TokenModel::RightBracket) =~= acc + value_tokens(v));
            } else {
                assert(decreases_to!(v => v->Array_0));
                lemma_lex_elements_text(b, p + 1, acc1, items);
                let acc2 = acc1 + elements_tokens(items);
                assert(lex_tokens(b, p + 1 + inner.len(), acc2) == lex_tokens(
                    b,
                    p + 2 + inner.len(),
                    acc2.push(TokenModel::RightBracket),
                ));
                assert(acc2.push(TokenModel::RightBracket) =~= acc + value_tokens(v));
                assert(value_text(v).len() == inner.len() + 2);
            }
        },
        ValueModel::Object(members) => {
            let inner = members_text(members);
            lemma_stands_at_text(b, p, "{"@ + inner, "}"@);
            lemma_stands_at_text(b, p, "{"@, inner);
            lemma_stands_at_one(b, p, LEFT_BRACE);
            lemma_stands_at_one(b, p + 1 + inner.len(), RIGHT_BRACE);
            let acc1 = acc.push(TokenModel::LeftBrace);
            assert(lex_tokens(b, p, acc) == lex_tokens(b, p + 1, acc1));
            if members.len() == 0 {
                assert(inner.len() == 0);
                assert(lex_tokens(b, p + 1, acc1) == lex_tokens(
                    b,
                    p + 2,
                    acc1.push(TokenModel::RightBrace),
                ));
                assert(acc1.push(TokenModel::RightBrace) =~= acc + value_tokens(v));
            } else {
                assert(decreases_to!(v => v->Object_0));
                assert(forall|i: int|
                    0 <= i < members.len() ==> is_plain_text(#[trigger] members[i].0) && printable(
                        members[i].1,
                    ));
                lemma_lex_members_text(b, p + 1, acc1, members);
                let acc2 = acc1 + members_tokens(members);
                assert(lex_tokens(b, p + 1 + inner.len(), acc2) == lex_tokens(
                    b,
                    p + 2 + inner.len(),
                    acc2.push(TokenModel::RightBrace),
                ));
                assert(acc2.push(TokenModel::RightBrace) =~= acc + value_tokens(v));
                assert(value_text(v).len() == inner.len() + 2);
            }
        },
    }
}

proof fn lemma_lex_elements_text(
    b: Seq<u8>,
    q: int,
    acc: Seq<TokenModel>,
    items: Seq<ValueModel>,
)
    requires
        items.len() >= 1,
        forall|i: int| 0 <= i < items.len() ==> printable(#[trigger] items[i]),
        stands_at(b, q, ascii_bytes(elements_text(items))),
        delimits(b, q + elements_text(items).len()),
    ensures
        lex_tokens(b, q, acc) == lex_tokens(
            b,
            q + elements_text(items).len(),
            acc + elements_tokens(items),
        ),
    decreases items,
{
    lemma_fixed_text_bytes();
    if items.len() == 1 {
        assert(decreases_to!(items => items[0]));
        lemma_lex_value_text(b, q, acc, items[0]);
    } else {
        let prefix = items.drop_last();
        let last = items.last();
        let head = elements_text(prefix);
        lemma_stands_at_text(b, q, head + ", "@, value_text(last));
        lemma_stands_at_text(b, q, head, ", "@);
        lemma_stands_at_concat(b, q + head.len(), seq![COMMA], seq![SPACE]);
        lemma_stands_at_one(b, q + head.len(), COMMA);
        lemma_stands_at_one(b, q + head.len() + 1, SPACE);
        assert(decreases_to!(items => prefix));
        lemma_lex_elements_text(b, q, acc, prefix);
        let acc1 = acc + elements_tokens(prefix);
        let c0 = q + head.len();
        assert(lex_tokens(b, c0, acc1) == lex_tokens(b, c0 + 1, acc1.push(TokenModel::Comma)));
        assert(lex_tokens(b, c0 + 1, acc1.push(TokenModel::Comma)) == lex_tokens(
            b,
            c0 + 2,
            acc1.push(TokenModel::Comma),
        ));
        assert(decreases_to!(items => items[items.len() - 1]));
        lemma_lex_value_text(b, q + head.len() + 2, acc1.push(TokenModel::Comma), last);
        assert(acc1.push(TokenModel::Comma) + value_tokens(last) =~= acc + elements_tokens(
            items,
        ));
    }
}

proof fn lemma_lex_members_text(
    b: Seq<u8>,
    q: int,
    acc: Seq<TokenModel>,
    members: Seq<(Seq<char>, ValueModel)>,
)
    requires
        members.len() >= 1,
        forall|i: int|
            0 <= i < members.len() ==> is_plain_text(#[trigger] members[i].0) && printable(
                members[i].1,
            ),
        stands_at(b, q, ascii_bytes(members_text(members))),
        delimits(b, q + members_text(members).len()),
    ensures
        lex_tokens(b, q, acc) == lex_tokens(
            b,
            q + members_text(members).len(),
            acc + members_tokens(members),
        ),
    decreases members,
{
    lemma_fixed_text_bytes();
    let n = members.len() - 1;
    let (key, v) = members[n];
    let vt = value_text(v);
    let one = member_text(key, vt);
    // Where the last member starts, and the tokens before it.
    let start = if members.len() == 1 {
        q
    } else {
        q + members_text(members.drop_last()).len() + 2
    };
    let acc0 = if members.len() == 1 {
        acc
    } else {
        acc + members_tokens(members.drop_last()) + seq![TokenModel::Comma]
    };
    if members.len() == 1 {
        assert(members_text(members) == one);
    } else {
        let prefix = members.drop_last();
        let head = members_text(prefix);
        assert(members.last() == members[n]);
        lemma_stands_at_text(b, q, head + ", "@, one);
        lemma_stands_at_text(b, q, head, ", "@);
        lemma_stands_at_concat(b, q + head.len(), seq![COMMA], seq![SPACE]);
        lemma_stands_at_one(b, q + head.len(), COMMA);
        lemma_stands_at_one(b, q + head.len() + 1, SPACE);
        assert(decreases_to!(members => prefix));
        lemma_lex_members_text(b, q, acc, prefix);
        let acc1 = acc + members_tokens(prefix);
        let c0 = q + head.len();
        assert(lex_tokens(b, c0, acc1) == lex_tokens(b, c0 + 1, acc1.push(TokenModel::Comma)));
        assert(lex_tokens(b, c0 + 1, acc1.push(TokenModel::Comma)) == lex_tokens(
            b,
            c0 + 2,
            acc1.push(TokenModel::Comma),
        ));
        assert(acc1.push(TokenModel::Comma) =~= acc0);
    }
    assert(stands_at(b, start, ascii_bytes(one)));
    assert(start + one.len() == q + members_text(members).len());
    // The member itself: a quoted key, a colon and a space, the value.
    lemma_stands_at_text(b, start, "\""@ + key + "\""@ + ": "@, vt);
    lemma_stands_at_text(b, start, "\""@ + key + "\""@, ": "@);
    lemma_stands_at_text(b, start, "\""@ + key, "\""@);
    lemma_stands_at_text(b, start, "\""@, key);
    lemma_stands_at_one(b, start, QUOTE);
    lemma_stands_at_concat(b, start + 1, ascii_bytes(key), seq![QUOTE]);
    lemma_string_body_plain(b, start + 1, Seq::empty(), key);
    assert(Seq::<char>::empty() + key =~= key);
    let colon = start + key.len() + 2;
    lemma_stands_at_concat(b, colon, seq![COLON], seq![SPACE]);
    lemma_stands_at_one(b, colon, COLON);
    lemma_stands_at_one(b, colon + 1, SPACE);
    assert(decreases_to!(members => members[n]));
    assert(decreases_to!(members[n] => members[n].1));
    let acc1 = acc0.push(TokenModel::Str(key)).push(TokenModel::Colon);
    assert(lex_tokens(b, start, acc0) == lex_tokens(b, colon, acc0.push(TokenModel::Str(key))));
    assert(lex_tokens(b, colon, acc0.push(TokenModel::Str(key))) == lex_tokens(b, colon + 1, acc1));
    assert(lex_tokens(b, colon + 1, acc1) == lex_tokens(b, colon + 2, acc1));
    lemma_lex_value_text(b, colon + 2, acc1, v);
    assert(acc1 + value_tokens(v) =~= acc + members_tokens(members));
}

} // verus!

verus! {

proof fn lemma_ascii_concat(x: Seq<char>, y: Seq<char>)
    requires
        is_ascii_chars(x),
        is_ascii_chars(y),
    ensures
        is_ascii_chars(x + y),
{
    assert forall|i: int| 0 <= i < (x + y).len() implies '\0' <= #[trigger] (x + y)[i] <= '\u{7f}' by {
        if i >= x.len() {
            assert((x + y)[i] == y[i - x.len()]);
        }
    }
}

proof fn lemma_fixed_text_ascii()
    ensures
        is_ascii_chars("["@),
        is_ascii_chars("]"@),
        is_ascii_chars("{"@),
        is_ascii_chars("}"@),
        is_ascii_chars("\""@),
        is_ascii_chars(", "@),
        is_ascii_chars(": "@),
        is_ascii_chars("null"@),
        is_ascii_chars("true"@),
        is_ascii_chars("false"@),
{
    reveal_strlit("[");
    reveal_strlit("]");
    reveal_strlit("{");
    reveal_strlit("}");
    reveal_strlit("\"");
    reveal_strlit(", ");
    reveal_strlit(": ");
    reveal_strlit("null");
    reveal_strlit("true");
    reveal_strlit("false");
}

proof fn lemma_ascii_char_bounds(c: char)
    requires
        (c as u32) < 128,
    ensures
        '\0' <= c <= '\u{7f}',
{
}

proof fn lemma_plain_text_ascii(s: Seq<char>)
    requires
        is_plain_text(s),
    ensures
        is_ascii_chars(s),
{
    assert forall|i: int| 0 <= i < s.len() implies '\0' <= #[trigger] s[i] <= '\u{7f}' by {
        assert(is_plain_char(s[i]));
        lemma_ascii_char_bounds(s[i]);
    }
}

/// The printed text of a printable value is ASCII.
proof fn lemma_value_text_ascii(v: ValueModel)
    requires
        printable(v),
    ensures
        is_ascii_chars(value_text(v)),
    decreases v,
{
    lemma_fixed_text_ascii();
    match v {
        ValueModel::Number(n) => {
            assert forall|i: int| 0 <= i < n.len() implies '\0' <= #[trigger] n[i] <= '\u{7f}' by {
                if i > 0 {
                    assert(is_digit_char(n[i]) || n[i] == '.');
                }
            }
        },
        ValueModel::Str(s) => {
            lemma_plain_text_ascii(s);
            lemma_ascii_concat("\""@, s);
            lemma_ascii_concat("\""@ + s, "\""@);
        },
        ValueModel::Array(items) => {
            assert(decreases_to!(v => v->Array_0));
            lemma_elements_text_ascii(items);
            lemma_ascii_concat("["@, elements_text(items));
            lemma_ascii_concat("["@ + elements_text(items), "]"@);
        },
        ValueModel::Object(members) => {
            assert(decreases_to!(v => v->Object_0));
            lemma_members_text_ascii(members);
            lemma_ascii_concat("{"@, members_text(members));
            lemma_ascii_concat("{"@ + members_text(members), "}"@);
        },
        _ => {},
    }
}

proof fn lemma_elements_text_ascii(items: Seq<ValueModel>)
    requires
        forall|i: int| 0 <= i < items.len() ==> printable(#[trigger] items[i]),
    ensures
        is_ascii_chars(elements_text(items)),
    decreases items,
{
    lemma_fixed_text_ascii();
    if items.len() == 1 {
        assert(decreases_to!(items => items[0]));
        lemma_value_text_ascii(items[0]);
    } else if items.len() >= 2 {
        let prefix = items.drop_last();
        assert(decreases_to!(items => prefix));
        assert(decreases_to!(items => items[items.len() - 1]));
        lemma_elements_text_ascii(prefix);
        lemma_value_text_ascii(items.last());
        lemma_ascii_concat(elements_text(prefix), ", "@);
        lemma_ascii_concat(elements_text(prefix) + ", "@, value_text(items.last()));
    }
}

proof fn lemma_members_text_ascii(members: Seq<(Seq<char>, ValueModel)>)
    requires
        forall|i: int|
            0 <= i < members.len() ==> is_plain_text(#[trigger] members[i].0) && printable(
                members[i].1,
            ),
    ensures
        is_ascii_chars(members_text(members)),
    decreases members,
{
    lemma_fixed_text_ascii();
    if members.len() >= 1 {
        let n = members.len() - 1;
        let (key, v) = members[n];
        assert(decreases_to!(members => members[n]));
        assert(decreases_to!(members[n] => members[n].1));
        lemma_value_text_ascii(v);
        lemma_plain_text_ascii(key);
        lemma_ascii_concat("\""@, key);
        lemma_ascii_concat("\""@ + key, "\""@);
        lemma_ascii_concat("\""@ + key + "\""@, ": "@);
        lemma_ascii_concat("\""@ + key + "\""@ + ": "@, value_text(v));
        if members.len() >= 2 {
            let prefix = members.drop_last();
            assert(decreases_to!(members => prefix));
            lemma_members_text_ascii(prefix);
            assert(members.last() == members[n]);
            lemma_ascii_concat(members_text(prefix), ", "@);
            lemma_ascii_concat(members_text(prefix) + ", "@, member_text(key, value_text(v)));
        }
    }
}

/// The lexer cuts the printed text of a printable value into exactly the
/// value's tokens.
pub proof fn lemma_tokens_of_printed_value(v: ValueModel)
    requires
        printable(v),
    ensures
        tokens_of(value_text(v)) == Ok::<Seq<TokenModel>, LexErrorModel>(value_tokens(v)),
{
    let t = value_text(v);
    lemma_value_text_ascii(v);
    vstd::utf8::is_ascii_chars_encode_utf8(t);
    let b = encode_utf8(t);
    assert(b =~= ascii_bytes(t));
    assert(stands_at(b, 0, ascii_bytes(t)));
    lemma_lex_value_text(b, 0, Seq::empty(), v);
    assert(Seq::<TokenModel>::empty() + value_tokens(v) =~= value_tokens(v));
}

/// Reading back the printed text of a printable value gives the value:
/// the text cuts into tokens, and the tokens parse to the same value.
pub proof fn lemma_read_printed_value(v: ValueModel)
    requires
        printable(v),
    ensures
        tokens_of(value_text(v)) is Ok,
        parse_tokens(tokens_of(value_text(v))->Ok_0) == Ok::<ValueModel, ParseErrorModel>(v),
{
    lemma_tokens_of_printed_value(v);
    lemma_parse_of_value_tokens(v);
}

} // verus!

verus! {

// ---------------------------------------------------------------------------
// The parser accepts nothing but the tokens of a value
// ---------------------------------------------------------------------------

proof fn lemma_parsed_value_tokens(ts: Seq<TokenModel>, pos: int)
    requires
        0 <= pos,
        parse_value_at(ts, pos).0 is Ok,
    ensures
        stands_at(ts, pos, value_tokens(parse_value_at(ts, pos).0->Ok_0)),
        parse_value_at(ts, pos).1 == value_tokens(parse_value_at(ts, pos).0->Ok_0).len(),
    decreases ts.len() - pos, 0int,
{
    let v = parse_value_at(ts, pos).0->Ok_0;
    let n = parse_value_at(ts, pos).1;
    match ts[pos] {
        TokenModel::LeftBracket => {
            let items = v->Array_0;
            if ts[pos + 1] is RightBracket {
                assert(value_tokens(v) =~= seq![TokenModel::LeftBracket, TokenModel::RightBracket]);
            } else {
                lemma_parsed_elements_tokens(ts, pos + 1, Seq::empty());
                let (res, m) = parse_elements(ts, pos + 1, Seq::empty());
                assert(res->Ok_0.subrange(0, res->Ok_0.len() as int) =~= items);
                lemma_stands_at_concat(ts, pos + 1, elements_tokens(items), seq![TokenModel::RightBracket]);
                lemma_stands_at_concat(ts, pos, seq![TokenModel::LeftBracket], elements_tokens(items));
                lemma_stands_at_concat(
                    ts,
                    pos,
                    seq![TokenModel::LeftBracket] + elements_tokens(items),
                    seq![TokenModel::RightBracket],
                );
            }
        },
        TokenModel::LeftBrace => {
            let members = v->Object_0;
            if ts[pos + 1] is RightBrace {
                assert(value_tokens(v) =~= seq![TokenModel::LeftBrace, TokenModel::RightBrace]);
            } else {
                lemma_parsed_members_tokens(ts, pos + 1, Seq::empty());
                let (res, m) = parse_members(ts, pos + 1, Seq::empty());
                assert(res->Ok_0.subrange(0, res->Ok_0.len() as int) =~= members);
                lemma_stands_at_concat(ts, pos + 1, members_tokens(members), seq![TokenModel::RightBrace]);
                lemma_stands_at_concat(ts, pos, seq![TokenModel::LeftBrace], members_tokens(members));
                lemma_stands_at_concat(
                    ts,
                    pos,
                    seq![TokenModel::LeftBrace] + members_tokens(members),
                    seq![TokenModel::RightBrace],
                );
            }
        },
        _ => {
            assert(stands_at(ts, pos, value_tokens(v)));
        },
    }
}

proof fn lemma_parsed_elements_tokens(ts: Seq<TokenModel>, q: int, acc: Seq<ValueModel>)
    requires
        0 <= q,
        parse_elements(ts, q, acc).0 is Ok,
    ensures
        ({
            let (res, n) = parse_elements(ts, q, acc);
            let all = res->Ok_0;
            let items = all.subrange(acc.len() as int, all.len() as int);
            &&& all.len() > acc.len()
            &&& all.subrange(0, acc.len() as int) == acc
            &&& stands_at(ts, q, elements_tokens(items) + seq![TokenModel::RightBracket])
            &&& n == elements_tokens(items).len() + 1
        }),
    decreases ts.len() - q, 1int,
{
    let (first, n0) = parse_value_at(ts, q);
    lemma_parsed_value_tokens(ts, q);
    let v = first->Ok_0;
    let r = q + n0;
    let (res, n) = parse_elements(ts, q, acc);
    let all = res->Ok_0;
    if ts[r] is RightBracket {
        assert(all == acc.push(v));
        let items = all.subrange(acc.len() as int, all.len() as int);
        assert(items =~= seq![v]);
        assert(all.subrange(0, acc.len() as int) =~= acc);
        lemma_stands_at_concat(ts, q, value_tokens(v), seq![TokenModel::RightBracket]);
    } else {
        lemma_parsed_elements_tokens(ts, r + 1, acc.push(v));
        let rest = all.subrange(acc.len() as int + 1, all.len() as int);
        let items = all.subrange(acc.len() as int, all.len() as int);
        assert(all.subrange(0, acc.len() as int + 1) == acc.push(v));
        assert(all.subrange(0, acc.len() as int) =~= acc) by {
            assert(all.subrange(0, acc.len() as int) =~= all.subrange(0, acc.len() as int + 1).drop_last());
        }
        assert(items[0] == v) by {
            assert(all.subrange(0, acc.len() as int + 1)[acc.len() as int] == v);
        }
        assert(items.drop_first() =~= rest);
        lemma_elements_tokens_first(items);
        lemma_stands_at_concat(ts, q, value_tokens(v), seq![TokenModel::Comma]);
        lemma_stands_at_concat(
            ts,
            q,
            value_tokens(v) + seq![TokenModel::Comma],
            elements_tokens(rest) + seq![TokenModel::RightBracket],
        );
        assert(value_tokens(v) + seq![TokenModel::Comma] + (elements_tokens(rest) + seq![
            TokenModel::RightBracket,
        ]) =~= elements_tokens(items) + seq![TokenModel::RightBracket]);
    }
}

proof fn lemma_parsed_members_tokens(
    ts: Seq<TokenModel>,
    q: int,
    acc: Seq<(Seq<char>, ValueModel)>,
)
    requires
        0 <= q,
        parse_members(ts, q, acc).0 is Ok,
    ensures
        ({
            let (res, n) = parse_members(ts, q, acc);
            let all = res->Ok_0;
            let members = all.subrange(acc.len() as int, all.len() as int);
            &&& all.len() > acc.len()
            &&& all.subrange(0, acc.len() as int) == acc
            &&& stands_at(ts, q, members_tokens(members) + seq![TokenModel::RightBrace])
            &&& n == members_tokens(members).len() + 1
        }),
    decreases ts.len() - q, 1int,
{
    let key = ts[q]->Str_0;
    let (first, n0) = parse_value_at(ts, q + 2);
    lemma_parsed_value_tokens(ts, q + 2);
    let v = first->Ok_0;
    let one = member_tokens(key, value_tokens(v));
    let r = q + 2 + n0;
    let (res, n) = parse_members(ts, q, acc);
    let all = res->Ok_0;
    assert(stands_at(ts, q, seq![TokenModel::Str(key), TokenModel::Colon]));
    lemma_stands_at_concat(ts, q, seq![TokenModel::Str(key), TokenModel::Colon], value_tokens(v));
    if ts[r] is RightBrace {
        assert(all == acc.push((key, v)));
        let members = all.subrange(acc.len() as int, all.len() as int);
        assert(members =~= seq![(key, v)]);
        assert(all.subrange(0, acc.len() as int) =~= acc);
        lemma_stands_at_concat(ts, q, one, seq![TokenModel::RightBrace]);
    } else {
        lemma_parsed_members_tokens(ts, r + 1, acc.push((key, v)));
        let rest = all.subrange(acc.len() as int + 1, all.len() as int);
        let members = all.subrange(acc.len() as int, all.len() as int);
        assert(all.subrange(0, acc.len() as int + 1) == acc.push((key, v)));
        assert(all.subrange(0, acc.len() as int) =~= acc) by {
            assert(all.subrange(0, acc.len() as int) =~= all.subrange(0, acc.len() as int + 1).drop_last());
        }
        assert(members[0] == (key, v)) by {
            assert(all.subrange(0, acc.len() as int + 1)[acc.len() as int] == (key, v));
        }
        assert(members.drop_first() =~= rest);
        lemma_members_tokens_first(members);
        lemma_stands_at_concat(ts, q, one, seq![TokenModel::Comma]);
        lemma_stands_at_concat(
            ts,
            q,
            one + seq![TokenModel::Comma],
            members_tokens(rest) + seq![TokenModel::RightBrace],
        );
        assert(one + seq![TokenModel::Comma] + (members_tokens(rest) + seq![
            TokenModel::RightBrace,
        ]) =~= members_tokens(members) + seq![TokenModel::RightBrace]);
    }
}

/// The parser accepts exactly the token sequences of values: a sequence
/// that parses to a value is that value's tokens.
pub proof fn lemma_parsed_tokens_are_value_tokens(ts: Seq<TokenModel>)
    requires
        parse_tokens(ts) is Ok,
    ensures
        ts == value_tokens(parse_tokens(ts)->Ok_0),
{
    lemma_parsed_value_tokens(ts, 0);
    let v = parse_tokens(ts)->Ok_0;
    assert(ts =~= value_tokens(v)) by {
        assert forall|i: int| 0 <= i < ts.len() implies ts[i] == value_tokens(v)[i] by {
            assert(ts[0 + i] == value_tokens(v)[i]);
        }
    }
}

} // verus!

verus! {

/// A token sequence parses to a value exactly when it is that value's
/// tokens.
pub proof fn lemma_parse_exactly_value_tokens(ts: Seq<TokenModel>, v: ValueModel)
    ensures
        parse_tokens(ts) == Ok::<ValueModel, ParseErrorModel>(v) <==> ts == value_tokens(v),
{
    lemma_parse_of_value_tokens(v);
    if parse_tokens(ts) == Ok::<ValueModel, ParseErrorModel>(v) {
        lemma_parsed_tokens_are_value_tokens(ts);
    }
}

} // verus!

verus! {

/// The value read at the start of a token sequence does not depend on the
/// tokens after it: appending more tokens reads the same value, taking the
/// same tokens.
pub proof fn lemma_parse_value_ignores_later_tokens(ts: Seq<TokenModel>, more: Seq<TokenModel>)
    requires
        parse_value_at(ts, 0).0 is Ok,
    ensures
        parse_value_at(ts + more, 0) == parse_value_at(ts, 0),
{
    lemma_parsed_value_tokens(ts, 0);
    let v = parse_value_at(ts, 0).0->Ok_0;
    assert(stands_at(ts + more, 0, value_tokens(v))) by {
        assert forall|i: int| 0 <= i < value_tokens(v).len() implies (ts + more)[0 + i]
            == value_tokens(v)[i] by {
            assert(ts[0 + i] == value_tokens(v)[i]);
        }
    }
    lemma_parse_value_tokens(ts + more, 0, v);
}

/// The tokens of a value followed by any more tokens are refused, with a
/// message that names the first token after the value.
pub proof fn lemma_trailing_tokens_refused(v: ValueModel, more: Seq<TokenModel>)
    requires
        more.len() > 0,
    ensures
        parse_tokens(value_tokens(v) + more) == Err::<ValueModel, ParseErrorModel>(
            ParseErrorModel::UnexpectedToken(trailing_message(more[0])),
        ),
{
    let ts = value_tokens(v) + more;
    assert(stands_at(ts, 0, value_tokens(v))) by {
        assert forall|i: int| 0 <= i < value_tokens(v).len() implies ts[0 + i]
            == value_tokens(v)[i] by {}
    }
    lemma_parse_value_tokens(ts, 0, v);
    assert(ts[value_tokens(v).len() as int] == more[0]);
}

} // verus!

verus! {

// ---------------------------------------------------------------------------
// Unicode escapes decode to the code point that their hex digits write
// ---------------------------------------------------------------------------

/// The ASCII byte that writes the hex digit `d` (below 16): `'0'` to `'9'`,
/// then `'A'` to `'F'` or `'a'` to `'f'`.
pub open spec fn hex_digit_byte(d: u8, upper: bool) -> u8 {
    if d < 10 {
        (48 + d) as u8
    } else if upper {
        (65 + d - 10) as u8
    } else {
        (97 + d - 10) as u8
    }
}

/// The number that four hex digits write, most significant first.
pub open spec fn four_digit_value(d: Seq<u8>) -> u32 {
    (d[0] * 4096 + d[1] * 256 + d[2] * 16 + d[3]) as u32
}

/// The four bytes from `p` write the hex digits `d`, each in the case that
/// `upper` gives.
pub open spec fn writes_hex_digits(b: Seq<u8>, p: int, d: Seq<u8>, upper: Seq<bool>) -> bool {
    &&& 0 <= p
    &&& p + 4 <= b.len()
    &&& d.len() == 4
    &&& upper.len() == 4
    &&& forall|i: int| 0 <= i < 4 ==> d[i] < 16 && #[trigger] b[p + i] == hex_digit_byte(d[i], upper[i])
}

proof fn lemma_hex_digit_byte_value(d: u8, upper: bool)
    requires
        d < 16,
    ensures
        crate::lexer::hex_digit_value(hex_digit_byte(d, upper)) == Some(d as u32),
{
}

/// Four hex digits, in either case, read as the number they write, and the
/// reading stops right after them.
pub proof fn lemma_unicode_escape_digits(b: Seq<u8>, p: int, d: Seq<u8>, upper: Seq<bool>)
    requires
        writes_hex_digits(b, p, d, upper),
    ensures
        crate::lexer::hex_escape(b, p, 4, 0) == (
            Ok::<u32, LexErrorModel>(four_digit_value(d)),
            p + 4,
        ),
{
    assert(b[p + 0] == hex_digit_byte(d[0], upper[0]));
    assert(b[p + 1] == hex_digit_byte(d[1], upper[1]));
    assert(b[p + 2] == hex_digit_byte(d[2], upper[2]));
    assert(b[p + 3] == hex_digit_byte(d[3], upper[3]));
    lemma_hex_digit_byte_value(d[0], upper[0]);
    lemma_hex_digit_byte_value(d[1], upper[1]);
    lemma_hex_digit_byte_value(d[2], upper[2]);
    lemma_hex_digit_byte_value(d[3], upper[3]);
    let a1 = (0u32 * 16 + d[0]) as u32;
    let a2 = (a1 * 16 + d[1]) as u32;
    let a3 = (a2 * 16 + d[2]) as u32;
    let a4 = (a3 * 16 + d[3]) as u32;
    assert(a4 == four_digit_value(d));
    assert(crate::lexer::hex_escape(b, p + 4, 0, a4) == (Ok::<u32, LexErrorModel>(a4), p + 4));
    assert(crate::lexer::hex_escape(b, p + 3, 1, a3) == crate::lexer::hex_escape(b, p + 4, 0, a4));
    assert(crate::lexer::hex_escape(b, p + 2, 2, a2) == crate::lexer::hex_escape(b, p + 3, 1, a3));
    assert(crate::lexer::hex_escape(b, p + 1, 3, a1) == crate::lexer::hex_escape(b, p + 2, 2, a2));
    assert(crate::lexer::hex_escape(b, p, 4, 0) == crate::lexer::hex_escape(b, p + 1, 3, a1));
}

/// Inside a string, a backslash, `u` and four hex digits in either case
/// stand for the character with the code point that the digits write, when
/// that is a Unicode scalar value; otherwise the string is refused with
/// `InvalidUnicode` of that number, after the digits.
pub proof fn lemma_unicode_escape_in_string(
    b: Seq<u8>,
    p: int,
    acc: Seq<char>,
    d: Seq<u8>,
    upper: Seq<bool>,
)
    requires
        0 <= p,
        p + 2 <= b.len(),
        b[p] == 92,
        b[p + 1] == 117,
        writes_hex_digits(b, p + 2, d, upper),
    ensures
        vstd::utf8::is_scalar(four_digit_value(d)) ==> string_body(b, p, acc) == string_body(
            b,
            p + 6,
            acc.push(four_digit_value(d) as char),
        ),
        !vstd::utf8::is_scalar(four_digit_value(d)) ==> string_body(b, p, acc) == (
            Err::<Seq<char>, LexErrorModel>(LexErrorModel::InvalidUnicode(four_digit_value(d))),
            p + 6,
        ),
{
    lemma_unicode_escape_digits(b, p + 2, d, upper);
}

// ---------------------------------------------------------------------------
// The printer writes strings and keys as they are
// ---------------------------------------------------------------------------

/// A string prints as a double quote, its characters unchanged, and a
/// double quote, whatever characters it holds.
pub proof fn lemma_display_string_text(s: Seq<char>)
    ensures
        value_text(ValueModel::Str(s)).len() == s.len() + 2,
        value_text(ValueModel::Str(s))[0] == '"',
        value_text(ValueModel::Str(s))[s.len() as int + 1] == '"',
        forall|i: int| 0 <= i < s.len() ==> value_text(ValueModel::Str(s))[i + 1] == s[i],
{
    reveal_strlit("\"");
    let t = value_text(ValueModel::Str(s));
    assert(t =~= seq!['"'] + s + seq!['"']);
}

/// Adding a member to an object adds, before the closing brace, a comma
/// and a space (unless the object was empty), the key between double
/// quotes with its characters unchanged, a colon and a space, and the text
/// of the value.
pub proof fn lemma_display_object_push(
    members: Seq<(Seq<char>, ValueModel)>,
    key: Seq<char>,
    v: ValueModel,
)
    ensures
        value_text(ValueModel::Object(members.push((key, v)))) == value_text(
            ValueModel::Object(members),
        ).drop_last() + (if members.len() > 0 {
            seq![',', ' ']
        } else {
            Seq::empty()
        }) + seq!['"'] + key + seq!['"', ':', ' '] + value_text(v) + seq!['}'],
{
    reveal_strlit("\"");
    reveal_strlit("{");
    reveal_strlit("}");
    reveal_strlit(", ");
    reveal_strlit(": ");
    let all = members.push((key, v));
    assert(all.drop_last() =~= members);
    assert(all.last() == (key, v));
    let before = value_text(ValueModel::Object(members));
    assert(before.drop_last() =~= "{"@ + members_text(members));
    if members.len() == 0 {
        assert(members_text(members) =~= Seq::<char>::empty());
        assert(value_text(ValueModel::Object(all)) =~= before.drop_last() + seq!['"'] + key
            + seq!['"', ':', ' '] + value_text(v) + seq!['}']);
    } else {
        assert(value_text(ValueModel::Object(all)) =~= before.drop_last() + seq![',', ' ']
            + seq!['"'] + key + seq!['"', ':', ' '] + value_text(v) + seq!['}']);
    }
}

/// Adding an element to an array adds, before the closing bracket, a comma
/// and a space (unless the array was empty) and the text of the element.
pub proof fn lemma_display_array_push(items: Seq<ValueModel>, v: ValueModel)
    ensures
        value_text(ValueModel::Array(items.push(v))) == value_text(ValueModel::Array(items))
            .drop_last() + (if items.len() > 0 {
            seq![',', ' ']
        } else {
            Seq::empty()
        }) + value_text(v) + seq![']'],
{
    reveal_strlit("[");
    reveal_strlit("]");
    reveal_strlit(", ");
    let all = items.push(v);
    assert(all.drop_last() =~= items);
    assert(all.last() == v);
    let before = value_text(ValueModel::Array(items));
    assert(before.drop_last() =~= "["@ + elements_text(items));
    if items.len() == 0 {
        assert(elements_text(items) =~= Seq::<char>::empty());
        assert(value_text(ValueModel::Array(all)) =~= before.drop_last() + value_text(v)
            + seq![']']);
    } else {
        assert(value_text(ValueModel::Array(all)) =~= before.drop_last() + seq![',', ' ']
            + value_text(v) + seq![']']);
    }
}

} // verus!
