//! Laws of AMF0: how values are laid out, and what is read of a run of them.

use vstd::prelude::*;
use vstd::utf8::encode_utf8;

use crate::bytes;
use crate::bytes::be32;
use crate::rtmp::amf0::{
    ecma_array_bytes, ecma_arrays_round_trip, fields_bytes, is_field, is_scalar,
    object_bytes, objects_round_trip, scalar_bytes, scalars_round_trip, text_bytes, value_at,
    values_at, ValView,
};

verus! {

/// The value of the first field named `key`.
pub open spec fn value_of(fields: Seq<(Seq<char>, ValView)>, key: Seq<char>) -> Option<ValView>
    decreases fields.len(),
{
    if fields.len() == 0 {
        None
    } else if fields.first().0 == key {
        Some(fields.first().1)
    } else {
        value_of(fields.drop_first(), key)
    }
}

/// The field at `i` is what its name stands for, if no field before it has that
/// name.
pub proof fn lemma_value_of(fields: Seq<(Seq<char>, ValView)>, i: int)
    requires
        0 <= i < fields.len(),
        forall|k: int| 0 <= k < i ==> (#[trigger] fields[k]).0 != fields[i].0,
    ensures
        value_of(fields, fields[i].0) == Some(fields[i].1),
    decreases fields.len(),
{
    if i > 0 {
        let rest = fields.drop_first();
        assert(fields[0].0 != fields[i].0);
        assert(rest[i - 1] == fields[i]);
        assert forall|k: int| 0 <= k < i - 1 implies (#[trigger] rest[k]).0 != rest[i - 1].0 by {
            assert(rest[k] == fields[k + 1]);
        }
        lemma_value_of(rest, i - 1);
    }
}

/// A character takes at most four bytes.
pub proof fn lemma_utf8_len(s: Seq<char>)
    ensures
        encode_utf8(s).len() <= 4 * s.len(),
    decreases s.len(),
{
    if s.len() > 0 {
        lemma_utf8_len(s.drop_first());
    }
}

/// One value in front of others.
pub proof fn lemma_one_value(v: ValView, first: Seq<u8>, rest: Seq<u8>)
    requires
        value_at(first + rest) == (Some(v), rest),
        first.len() > 0,
    ensures
        values_at(first + rest) == seq![v] + values_at(rest),
{
}

/// A scalar in front of other values.
pub proof fn lemma_one_scalar(v: ValView, rest: Seq<u8>)
    requires
        is_scalar(v),
    ensures
        values_at(scalar_bytes(v) + rest) == seq![v] + values_at(rest),
{
    scalars_round_trip(v, rest);
    lemma_one_value(v, scalar_bytes(v), rest);
}

/// No bytes hold no values.
pub proof fn lemma_no_values()
    ensures
        values_at(Seq::empty()) == Seq::<ValView>::empty(),
{
}

/// An object as the last value.
pub proof fn lemma_last_object(fields: Seq<(Seq<char>, ValView)>)
    requires
        forall|i: int| 0 <= i < fields.len() ==> is_field(#[trigger] fields[i]),
    ensures
        values_at(object_bytes(fields)) == seq![ValView::Object(fields)],
{
    let none = Seq::<u8>::empty();
    objects_round_trip(fields, none);
    assert(object_bytes(fields) + none =~= object_bytes(fields));
    lemma_one_value(ValView::Object(fields), object_bytes(fields), none);
    lemma_no_values();
    assert(seq![ValView::Object(fields)] + Seq::<ValView>::empty() =~= seq![
        ValView::Object(fields),
    ]);
}

/// An ECMA array as the last value.
pub proof fn lemma_last_array(fields: Seq<(Seq<char>, ValView)>)
    requires
        forall|i: int| 0 <= i < fields.len() ==> is_field(#[trigger] fields[i]),
        fields.len() < 0x1_0000_0000,
    ensures
        values_at(ecma_array_bytes(fields)) == seq![ValView::Object(fields)],
{
    let none = Seq::<u8>::empty();
    ecma_arrays_round_trip(fields, none);
    assert(ecma_array_bytes(fields) + none =~= ecma_array_bytes(fields));
    lemma_one_value(ValView::Object(fields), ecma_array_bytes(fields), none);
    lemma_no_values();
    assert(seq![ValView::Object(fields)] + Seq::<ValView>::empty() =~= seq![
        ValView::Object(fields),
    ]);
}

/// How scalars are laid out (AMF0 2.2 to 2.7): a marker (0 for a number, 1 for a
/// boolean, 2 for a string, 5 for null), then the double, the most significant
/// byte first; 1 or 0; or the text in UTF-8 behind its length in two bytes, the
/// more significant one first.
pub proof fn scalars_are_laid_out(n: u64, b: bool, s: Seq<char>)
    requires
        encode_utf8(s).len() < 0x1_0000,
    ensures
        ({
            let d = scalar_bytes(ValView::Number(n));
            &&& d.len() == 9
            &&& d[0] == 0
            &&& n == d[1] * 0x100_0000_0000_0000 + d[2] * 0x1_0000_0000_0000 + d[3]
                * 0x100_0000_0000 + d[4] * 0x1_0000_0000 + d[5] * 0x100_0000 + d[6] * 0x1_0000
                + d[7] * 0x100 + d[8]
        }),
        scalar_bytes(ValView::Boolean(b)) == seq![
            1u8,
            if b {
                1u8
            } else {
                0u8
            },
        ],
        scalar_bytes(ValView::Null) == seq![5u8],
        ({
            let d = scalar_bytes(ValView::String(s));
            &&& d.len() == 3 + encode_utf8(s).len()
            &&& d[0] == 2
            &&& d[1] * 0x100 + d[2] == encode_utf8(s).len()
            &&& d.skip(3) == encode_utf8(s)
        }),
{
    let high = n as int / 0x1_0000_0000;
    let low = n as int % 0x1_0000_0000;
    bytes::bytes_are_in_order(high);
    bytes::bytes_are_in_order(low);
    let d = scalar_bytes(ValView::Number(n));
    assert(d =~= seq![0u8] + be32(high) + be32(low));
    assert(d[1] == be32(high)[0] && d[2] == be32(high)[1] && d[3] == be32(high)[2] && d[4] == be32(
        high,
    )[3]);
    assert(d[5] == be32(low)[0] && d[6] == be32(low)[1] && d[7] == be32(low)[2] && d[8] == be32(
        low,
    )[3]);
    bytes::bytes_are_in_order(encode_utf8(s).len() as int);
    let t = scalar_bytes(ValView::String(s));
    assert(t[1] == text_bytes(s)[0] && t[2] == text_bytes(s)[1]);
    assert(t.skip(3) =~= encode_utf8(s));
}

/// How lists of fields are laid out (AMF0 2.5 and 2.10): each name as text
/// without a marker, then its value; at the end an empty name and a 9. An object
/// has the marker 3 in front of them, and an array the marker 8 and their number
/// in four bytes.
pub proof fn field_lists_are_laid_out(
    fields: Seq<(Seq<char>, ValView)>,
    name: Seq<char>,
    v: ValView,
)
    requires
        fields.len() < 0x1_0000_0000,
        encode_utf8(name).len() < 0x1_0000,
    ensures
        ({
            let n = encode_utf8(name);
            let d = fields_bytes(seq![(name, v)] + fields);
            &&& d.len() > 2 + n.len()
            &&& d[0] * 0x100 + d[1] == n.len()
            &&& d.skip(2) == n + (scalar_bytes(v) + fields_bytes(fields))
        }),
        fields_bytes(Seq::empty()).len() == 0,
        object_bytes(fields) == seq![3u8] + (fields_bytes(fields) + seq![0u8, 0, 9]),
        ({
            let d = ecma_array_bytes(fields);
            &&& d.len() > 5
            &&& d[0] == 8
            &&& d[1] * 0x100_0000 + d[2] * 0x1_0000 + d[3] * 0x100 + d[4] == fields.len()
            &&& d.skip(5) == fields_bytes(fields) + seq![0u8, 0, 9]
        }),
{
    let n = encode_utf8(name);
    let all = seq![(name, v)] + fields;
    let d = fields_bytes(all);
    assert(all.first() == (name, v));
    assert(all.drop_first() =~= fields);
    bytes::bytes_are_in_order(n.len() as int);
    bytes::bytes_are_in_order(fields.len() as int);
    assert(scalar_bytes(v).len() > 0);
    assert(d =~= text_bytes(name) + (scalar_bytes(v) + fields_bytes(fields)));
    assert(d[0] == text_bytes(name)[0] && d[1] == text_bytes(name)[1]);
    assert(d.skip(2) =~= n + (scalar_bytes(v) + fields_bytes(fields)));
    assert(object_bytes(fields) =~= seq![3u8] + (fields_bytes(fields) + seq![0u8, 0, 9]));
    let e = ecma_array_bytes(fields);
    let count = be32(fields.len() as int);
    assert(e[1] == count[0] && e[2] == count[1] && e[3] == count[2] && e[4] == count[3]);
    assert(e.skip(5) =~= fields_bytes(fields) + seq![0u8, 0, 9]);
}

} // verus!
