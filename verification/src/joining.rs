//! Tokenizing two texts joined by a space gives the two token lists joined.
//!
//! The lexer only looks forward from where it stands, so what it reads from
//! the start of the second text does not depend on the bytes before it;
//! and a text that tokenizes ends between tokens, so a space after it ends
//! its last token just as the end of the text does.
use vstd::prelude::*;
use vstd::utf8::encode_utf8;
use crate::value::{LexErrorModel, TokenModel};
use crate::lexer::{
    DOT, MINUS, SPACE, byte_at, lemma_digits_end, bytes_text, digits_end, hex_escape, hex_digit_value, is_digit,
    is_space, keyword_for, lemma_hex_escape_position, lemma_keyword_not_empty,
    lemma_match_keyword_position, lemma_number_scan_position, lemma_string_body_position,
    lex_tokens, match_keyword, number_scan, punctuation, simple_escape, string_body, tokens_of,
    LOWER_F, LOWER_N, LOWER_T, LOWER_U, QUOTE, BACKSLASH,
};

verus! {

// ---------------------------------------------------------------------------
// Reading after a prefix is reading without it
// ---------------------------------------------------------------------------

proof fn lemma_digits_end_shift(pre: Seq<u8>, b: Seq<u8>, q: int)
    requires
        0 <= q <= b.len(),
    ensures
        digits_end(pre + b, pre.len() + q) == pre.len() + digits_end(b, q),
    decreases b.len() - q,
{
    let k = pre.len() as int;
    if q < b.len() {
        assert((pre + b)[k + q] == b[q]);
        if is_digit(b[q]) {
            lemma_digits_end_shift(pre, b, q + 1);
        }
    }
}

proof fn lemma_match_keyword_shift(pre: Seq<u8>, b: Seq<u8>, q: int, kw: Seq<u8>, name: Seq<char>)
    requires
        0 <= q <= b.len(),
    ensures
        match_keyword(pre + b, pre.len() + q, kw, name) == (
            match_keyword(b, q, kw, name).0,
            pre.len() + match_keyword(b, q, kw, name).1,
        ),
    decreases kw.len(),
{
    let k = pre.len() as int;
    if kw.len() > 0 && q < b.len() {
        assert((pre + b)[k + q] == b[q]);
        if b[q] == kw[0] {
            lemma_match_keyword_shift(pre, b, q + 1, kw.drop_first(), name);
        }
    }
}

proof fn lemma_hex_escape_shift(pre: Seq<u8>, b: Seq<u8>, q: int, count: nat, acc: u32)
    requires
        0 <= q <= b.len(),
    ensures
        hex_escape(pre + b, pre.len() + q, count, acc) == (
            hex_escape(b, q, count, acc).0,
            pre.len() + hex_escape(b, q, count, acc).1,
        ),
    decreases count,
{
    let k = pre.len() as int;
    if count > 0 && q < b.len() {
        assert((pre + b)[k + q] == b[q]);
        if let Some(d) = hex_digit_value(b[q]) {
            lemma_hex_escape_shift(pre, b, q + 1, (count - 1) as nat, (acc * 16 + d) as u32);
        }
    }
}

proof fn lemma_string_body_shift(pre: Seq<u8>, b: Seq<u8>, q: int, acc: Seq<char>)
    requires
        0 <= q <= b.len(),
    ensures
        string_body(pre + b, pre.len() + q, acc) == (
            string_body(b, q, acc).0,
            pre.len() + string_body(b, q, acc).1,
        ),
    decreases b.len() - q,
{
    let k = pre.len() as int;
    if q < b.len() {
        assert((pre + b)[k + q] == b[q]);
        if b[q] == BACKSLASH {
            if q + 1 < b.len() {
                assert((pre + b)[k + q + 1] == b[q + 1]);
                if let Some(c) = simple_escape(b[q + 1]) {
                    lemma_string_body_shift(pre, b, q + 2, acc.push(c));
                } else if b[q + 1] == LOWER_U {
                    lemma_hex_escape_position(b, q + 2, 4, 0);
                    lemma_hex_escape_shift(pre, b, q + 2, 4, 0);
                    let (res, r) = hex_escape(b, q + 2, 4, 0);
                    if let Ok(cp) = res {
                        if vstd::utf8::is_scalar(cp) {
                            lemma_string_body_shift(pre, b, r, acc.push(cp as char));
                        }
                    }
                }
            }
        } else if b[q] != QUOTE {
            lemma_string_body_shift(pre, b, q + 1, acc.push(crate::lexer::byte_char(b[q])));
        }
    }
}

proof fn lemma_number_scan_shift(pre: Seq<u8>, b: Seq<u8>, q: int)
    requires
        0 <= q <= b.len(),
    ensures
        number_scan(pre + b, pre.len() + q) == (
            number_scan(b, q).0,
            pre.len() + number_scan(b, q).1,
        ),
{
    let k = pre.len() as int;
    let s = pre + b;
    assert forall|i: int| 0 <= i implies byte_at(s, k + i) == byte_at(b, i) by {
        if 0 <= i < b.len() {
            assert(s[k + i] == b[i]);
        }
    }
    let a = if byte_at(b, q) == Some(MINUS) {
        q + 1
    } else {
        q
    };
    lemma_digits_end(b, a);
    lemma_digits_end_shift(pre, b, a);
    let d = digits_end(b, a);
    if byte_at(b, d) == Some(DOT) {
        lemma_digits_end(b, d + 1);
        lemma_digits_end_shift(pre, b, d + 1);
    }
    let e = number_scan(b, q).1;
    assert(s.subrange(k + q, k + e) =~= b.subrange(q, e));
}

/// Lexing after a prefix gives what lexing without the prefix gives.
proof fn lemma_lex_tokens_shift(pre: Seq<u8>, b: Seq<u8>, q: int, acc: Seq<TokenModel>)
    requires
        0 <= q <= b.len(),
    ensures
        lex_tokens(pre + b, pre.len() + q, acc) == lex_tokens(b, q, acc),
    decreases b.len() - q,
{
    let k = pre.len() as int;
    if q < b.len() {
        let c = b[q];
        assert((pre + b)[k + q] == c);
        if is_space(c) {
            lemma_lex_tokens_shift(pre, b, q + 1, acc);
        } else if let Some(t) = punctuation(c) {
            lemma_lex_tokens_shift(pre, b, q + 1, acc.push(t));
        } else if c == LOWER_T || c == LOWER_F || c == LOWER_N {
            let (name, t) = keyword_for(c);
            lemma_keyword_not_empty(c);
            lemma_match_keyword_position(b, q, encode_utf8(name), name);
            lemma_match_keyword_shift(pre, b, q, encode_utf8(name), name);
            let (res, r) = match_keyword(b, q, encode_utf8(name), name);
            if res is Ok {
                lemma_lex_tokens_shift(pre, b, r, acc.push(t));
            }
        } else if c == QUOTE {
            lemma_string_body_position(b, q + 1, Seq::empty());
            lemma_string_body_shift(pre, b, q + 1, Seq::empty());
            let (res, r) = string_body(b, q + 1, Seq::empty());
            if let Ok(s) = res {
                lemma_lex_tokens_shift(pre, b, r, acc.push(TokenModel::Str(s)));
            }
        } else if c == MINUS || is_digit(c) {
            lemma_number_scan_position(b, q);
            lemma_number_scan_shift(pre, b, q);
            let (res, r) = number_scan(b, q);
            if let Ok(n) = res {
                lemma_lex_tokens_shift(pre, b, r, acc.push(TokenModel::Number(n)));
            }
        }
    }
}

} // verus!

verus! {

// ---------------------------------------------------------------------------
// What a text reads stays the same when white space follows it
// ---------------------------------------------------------------------------

/// `more` starts with a white-space byte.
pub open spec fn starts_with_space(more: Seq<u8>) -> bool {
    more.len() > 0 && is_space(more[0])
}

proof fn lemma_digits_end_extend(a: Seq<u8>, more: Seq<u8>, i: int)
    requires
        0 <= i <= a.len(),
        starts_with_space(more),
    ensures
        digits_end(a + more, i) == digits_end(a, i),
    decreases a.len() - i,
{
    if i < a.len() {
        assert((a + more)[i] == a[i]);
        if is_digit(a[i]) {
            lemma_digits_end_extend(a, more, i + 1);
        }
    } else {
        assert((a + more)[i] == more[0]);
    }
}

proof fn lemma_match_keyword_extend(
    a: Seq<u8>,
    more: Seq<u8>,
    p: int,
    kw: Seq<u8>,
    name: Seq<char>,
)
    requires
        0 <= p <= a.len(),
        match_keyword(a, p, kw, name).0 is Ok,
    ensures
        match_keyword(a + more, p, kw, name) == match_keyword(a, p, kw, name),
    decreases kw.len(),
{
    if kw.len() > 0 {
        assert((a + more)[p] == a[p]);
        lemma_match_keyword_extend(a, more, p + 1, kw.drop_first(), name);
    }
}

proof fn lemma_hex_escape_extend(a: Seq<u8>, more: Seq<u8>, p: int, count: nat, acc: u32)
    requires
        0 <= p <= a.len(),
        hex_escape(a, p, count, acc).0 is Ok,
    ensures
        hex_escape(a + more, p, count, acc) == hex_escape(a, p, count, acc),
    decreases count,
{
    if count > 0 {
        assert((a + more)[p] == a[p]);
        let d = hex_digit_value(a[p])->Some_0;
        lemma_hex_escape_extend(a, more, p + 1, (count - 1) as nat, (acc * 16 + d) as u32);
    }
}

proof fn lemma_string_body_extend(a: Seq<u8>, more: Seq<u8>, p: int, acc: Seq<char>)
    requires
        0 <= p <= a.len(),
        string_body(a, p, acc).0 is Ok,
    ensures
        string_body(a + more, p, acc) == string_body(a, p, acc),
    decreases a.len() - p,
{
    assert((a + more)[p] == a[p]);
    if a[p] == BACKSLASH {
        assert((a + more)[p + 1] == a[p + 1]);
        if let Some(c) = simple_escape(a[p + 1]) {
            lemma_string_body_extend(a, more, p + 2, acc.push(c));
        } else {
            lemma_hex_escape_position(a, p + 2, 4, 0);
            lemma_hex_escape_extend(a, more, p + 2, 4, 0);
            let (res, r) = hex_escape(a, p + 2, 4, 0);
            let cp = res->Ok_0;
            lemma_string_body_extend(a, more, r, acc.push(cp as char));
        }
    } else if a[p] != QUOTE {
        lemma_string_body_extend(a, more, p + 1, acc.push(crate::lexer::byte_char(a[p])));
    }
}

proof fn lemma_number_scan_extend(a: Seq<u8>, more: Seq<u8>, p: int)
    requires
        0 <= p < a.len(),
        starts_with_space(more),
    ensures
        number_scan(a + more, p) == number_scan(a, p),
{
    let s = a + more;
    assert forall|i: int| 0 <= i < a.len() implies byte_at(s, i) == byte_at(a, i) by {
        if 0 <= i < a.len() {
            assert(s[i] == a[i]);
        }
    }
    assert(s[a.len() as int] == more[0]);
    let aa = if byte_at(a, p) == Some(MINUS) {
        p + 1
    } else {
        p
    };
    lemma_digits_end(a, aa);
    lemma_digits_end_extend(a, more, aa);
    let d = digits_end(a, aa);
    if byte_at(a, d) == Some(DOT) {
        lemma_digits_end(a, d + 1);
        lemma_digits_end_extend(a, more, d + 1);
    }
    let e = number_scan(a, p).1;
    assert(s.subrange(p, e) =~= a.subrange(p, e));
}

/// A text that lexes reads the same tokens when white space follows it,
/// and the reading then stands at the white space.
proof fn lemma_lex_tokens_extend(a: Seq<u8>, more: Seq<u8>, p: int, acc: Seq<TokenModel>)
    requires
        0 <= p <= a.len(),
        starts_with_space(more),
        lex_tokens(a, p, acc) is Ok,
    ensures
        lex_tokens(a + more, p, acc) == lex_tokens(a + more, a.len() as int, lex_tokens(a, p, acc)->Ok_0),
    decreases a.len() - p,
{
    if p < a.len() {
        let c = a[p];
        assert((a + more)[p] == c);
        if is_space(c) {
            lemma_lex_tokens_extend(a, more, p + 1, acc);
        } else if let Some(t) = punctuation(c) {
            lemma_lex_tokens_extend(a, more, p + 1, acc.push(t));
        } else if c == LOWER_T || c == LOWER_F || c == LOWER_N {
            let (name, t) = keyword_for(c);
            lemma_keyword_not_empty(c);
            lemma_match_keyword_position(a, p, encode_utf8(name), name);
            lemma_match_keyword_extend(a, more, p, encode_utf8(name), name);
            let (res, r) = match_keyword(a, p, encode_utf8(name), name);
            lemma_lex_tokens_extend(a, more, r, acc.push(t));
        } else if c == QUOTE {
            lemma_string_body_position(a, p + 1, Seq::empty());
            lemma_string_body_extend(a, more, p + 1, Seq::empty());
            let (res, r) = string_body(a, p + 1, Seq::empty());
            lemma_lex_tokens_extend(a, more, r, acc.push(TokenModel::Str(res->Ok_0)));
        } else {
            lemma_number_scan_position(a, p);
            lemma_number_scan_extend(a, more, p);
            let (res, r) = number_scan(a, p);
            lemma_lex_tokens_extend(a, more, r, acc.push(TokenModel::Number(res->Ok_0)));
        }
    }
}

} // verus!

verus! {

// ---------------------------------------------------------------------------
// The tokens read before do not change what is read next
// ---------------------------------------------------------------------------

proof fn lemma_lex_tokens_prepend(b: Seq<u8>, p: int, pre: Seq<TokenModel>, acc: Seq<TokenModel>)
    requires
        0 <= p <= b.len(),
    ensures
        lex_tokens(b, p, pre + acc) == match lex_tokens(b, p, acc) {
            Ok(ts) => Ok::<Seq<TokenModel>, LexErrorModel>(pre + ts),
            Err(e) => Err(e),
        },
    decreases b.len() - p,
{
    if p < b.len() {
        let c = b[p];
        if is_space(c) {
            lemma_lex_tokens_prepend(b, p + 1, pre, acc);
        } else if let Some(t) = punctuation(c) {
            assert((pre + acc).push(t) =~= pre + acc.push(t));
            lemma_lex_tokens_prepend(b, p + 1, pre, acc.push(t));
        } else if c == LOWER_T || c == LOWER_F || c == LOWER_N {
            let (name, t) = keyword_for(c);
            lemma_keyword_not_empty(c);
            lemma_match_keyword_position(b, p, encode_utf8(name), name);
            let (res, r) = match_keyword(b, p, encode_utf8(name), name);
            if res is Ok {
                assert((pre + acc).push(t) =~= pre + acc.push(t));
                lemma_lex_tokens_prepend(b, r, pre, acc.push(t));
            }
        } else if c == QUOTE {
            lemma_string_body_position(b, p + 1, Seq::empty());
            let (res, r) = string_body(b, p + 1, Seq::empty());
            if let Ok(s) = res {
                let t = TokenModel::Str(s);
                assert((pre + acc).push(t) =~= pre + acc.push(t));
                lemma_lex_tokens_prepend(b, r, pre, acc.push(t));
            }
        } else if c == MINUS || is_digit(c) {
            lemma_number_scan_position(b, p);
            let (res, r) = number_scan(b, p);
            if let Ok(n) = res {
                let t = TokenModel::Number(n);
                assert((pre + acc).push(t) =~= pre + acc.push(t));
                lemma_lex_tokens_prepend(b, r, pre, acc.push(t));
            }
        }
    }
}

proof fn lemma_encode_utf8_concat(x: Seq<char>, y: Seq<char>)
    ensures
        encode_utf8(x + y) == encode_utf8(x) + encode_utf8(y),
    decreases x.len(),
{
    if x.len() == 0 {
        assert(x + y =~= y);
        assert(encode_utf8(x) + encode_utf8(y) =~= encode_utf8(y));
    } else {
        assert((x + y)[0] == x[0]);
        assert((x + y).drop_first() =~= x.drop_first() + y);
        lemma_encode_utf8_concat(x.drop_first(), y);
        assert(encode_utf8(x + y) =~= encode_utf8(x) + encode_utf8(y));
    }
}

/// Tokenizing two texts joined by a space gives the two token lists
/// joined, when each text tokenizes on its own.
pub proof fn lemma_tokens_of_joined_texts(a: Seq<char>, b: Seq<char>)
    requires
        tokens_of(a) is Ok,
        tokens_of(b) is Ok,
    ensures
        tokens_of(a + " "@ + b) == Ok::<Seq<TokenModel>, LexErrorModel>(
            tokens_of(a)->Ok_0 + tokens_of(b)->Ok_0,
        ),
{
    let ta = tokens_of(a)->Ok_0;
    let tb = tokens_of(b)->Ok_0;
    let ba = encode_utf8(a);
    let bb = encode_utf8(b);
    reveal_strlit(" ");
    assert(encode_utf8(" "@) =~= seq![SPACE]) by {
        vstd::utf8::is_ascii_chars_encode_utf8(" "@);
    }
    lemma_encode_utf8_concat(a + " "@, b);
    lemma_encode_utf8_concat(a, " "@);
    let more = seq![SPACE] + bb;
    let all = encode_utf8(a + " "@ + b);
    assert(all =~= ba + more);
    assert(more[0] == SPACE);
    // The first text, then the space.
    lemma_lex_tokens_extend(ba, more, 0, Seq::empty());
    assert(all[ba.len() as int] == SPACE);
    assert(lex_tokens(all, ba.len() as int, ta) == lex_tokens(all, ba.len() as int + 1, ta));
    // The second text, read after the first and the space.
    let pre = ba + seq![SPACE];
    assert(all =~= pre + bb);
    lemma_lex_tokens_shift(pre, bb, 0, ta);
    assert(pre.len() + 0 == ba.len() + 1);
    lemma_lex_tokens_prepend(bb, 0, ta, Seq::empty());
    assert(ta + Seq::<TokenModel>::empty() =~= ta);
}

} // verus!
