//! The printer: it writes a value as compact JSON-like text, with `", "`
//! between elements and members and `": "` after a key. Strings are written
//! between double quotes as they are, without escapes; numbers as their
//! text.
use vstd::prelude::*;
use crate::value::{
    JsonValue, ValueModel, elements_model, lemma_array_model, lemma_object_model, members_model,
};

verus! {

/// A string between double quotes.
pub open spec fn quoted(s: Seq<char>) -> Seq<char> {
    "\""@ + s + "\""@
}

/// The text of a value.
pub open spec fn value_text(v: ValueModel) -> Seq<char>
    decreases v,
{
    match v {
        ValueModel::Null => "null"@,
        ValueModel::Bool(b) => if b {
            "true"@
        } else {
            "false"@
        },
        ValueModel::Number(n) => n,
        ValueModel::Str(s) => quoted(s),
        ValueModel::Array(items) => "["@ + elements_text(items) + "]"@,
        ValueModel::Object(members) => "{"@ + members_text(members) + "}"@,
    }
}

/// The texts of the elements, separated by `", "`.
pub open spec fn elements_text(items: Seq<ValueModel>) -> Seq<char>
    decreases items,
{
    if items.len() == 0 {
        Seq::empty()
    } else if items.len() == 1 {
        value_text(items[0])
    } else {
        proof {
            assert(decreases_to!(items => items.drop_last()));
        }
        elements_text(items.drop_last()) + ", "@ + value_text(items.last())
    }
}

/// The text of one member: the quoted key, `": "`, and the text of the value.
pub open spec fn member_text(key: Seq<char>, value: Seq<char>) -> Seq<char> {
    quoted(key) + ": "@ + value
}

/// The texts of the members, separated by `", "`.
pub open spec fn members_text(members: Seq<(Seq<char>, ValueModel)>) -> Seq<char>
    decreases members,
{
    if members.len() == 0 {
        Seq::empty()
    } else if members.len() == 1 {
        member_text(members[0].0, value_text(members[0].1))
    } else {
        proof {
            assert(decreases_to!(members => members.drop_last()));
        }
        members_text(members.drop_last()) + ", "@ + member_text(
            members.last().0,
            value_text(members.last().1),
        )
    }
}

} // verus!

verus! {

/// Writes `value` as text.
pub fn display(value: &JsonValue) -> (r: String)
    ensures
        r@ == value_text(value@),
    decreases value,
{
    match value {
        JsonValue::Null => String::from_str("null"),
        JsonValue::Bool(b) => if *b {
            String::from_str("true")
        } else {
            String::from_str("false")
        },
        JsonValue::Number(n) => n.clone(),
        JsonValue::Str(s) => {
            let mut result = String::from_str("\"");
            result.append(s.as_str());
            result.append("\"");
            result
        },
        JsonValue::Array(elements) => {
            proof {
                lemma_array_model(*elements);
            }
            let ghost items = elements_model(elements@);
            let mut result = String::from_str("[");
            let mut i: usize = 0;
            assert(items.take(0) =~= Seq::<ValueModel>::empty());
            while i < elements.len()
                invariant
                    i <= elements.len(),
                    items == elements_model(elements@),
                    *value == JsonValue::Array(*elements),
                    result@ == "["@ + elements_text(items.take(i as int)),
                decreases elements.len() - i,
            {
                proof {
                    assert(decreases_to!(*value => value->Array_0));
                    assert(decreases_to!(*elements => elements@));
                    assert(decreases_to!(elements@ => elements@[i as int]));
                }
                if i > 0 {
                    result.append(", ");
                }
                let text = display(&elements[i]);
                result.append(text.as_str());
                assert(items.take(i + 1).drop_last() =~= items.take(i as int));
                i = i + 1;
            }
            assert(items.take(i as int) =~= items);
            result.append("]");
            result
        },
        JsonValue::Object(pairs) => {
            proof {
                lemma_object_model(*pairs);
            }
            let ghost members = members_model(pairs@);
            let mut result = String::from_str("{");
            let mut i: usize = 0;
            assert(members.take(0) =~= Seq::<(Seq<char>, ValueModel)>::empty());
            while i < pairs.len()
                invariant
                    i <= pairs.len(),
                    members == members_model(pairs@),
                    *value == JsonValue::Object(*pairs),
                    result@ == "{"@ + members_text(members.take(i as int)),
                decreases pairs.len() - i,
            {
                proof {
                    assert(decreases_to!(*value => value->Object_0));
                    assert(decreases_to!(*pairs => pairs@));
                    assert(decreases_to!(pairs@ => pairs@[i as int]));
                    assert(decreases_to!(pairs@[i as int] => pairs@[i as int].1));
                }
                if i > 0 {
                    result.append(", ");
                }
                let (key, val) = &pairs[i];
                result.append("\"");
                result.append(key.as_str());
                result.append("\"");
                result.append(": ");
                let text = display(val);
                result.append(text.as_str());
                assert(members.take(i + 1).drop_last() =~= members.take(i as int));
                i = i + 1;
            }
            assert(members.take(i as int) =~= members);
            result.append("}");
            result
        },
    }
}

} // verus!
