//! Reading AMF0 commands: transaction ids, and the fields of the objects that
//! replies carry.

use vstd::prelude::*;
use vstd::string::*;

use crate::rtmp::amf0::{fields_view, items_view, Val, ValView};
use crate::rtmp::link::lemma_items;
use crate::text::same_text;

verus! {

/// The text of the first field named `key`, if that field is a string.
pub open spec fn field_text(fields: Seq<(Seq<char>, ValView)>, key: Seq<char>) -> Option<Seq<char>>
    decreases fields.len(),
{
    if fields.len() == 0 {
        None
    } else if fields.first().0 == key {
        match fields.first().1 {
            ValView::String(s) => Some(s),
            _ => None,
        }
    } else {
        field_text(fields.drop_first(), key)
    }
}

/// The first object among the values of a command.
pub open spec fn first_object(vals: Seq<ValView>) -> Option<Seq<(Seq<char>, ValView)>>
    decreases vals.len(),
{
    if vals.len() == 0 {
        None
    } else {
        match vals.first() {
            ValView::Object(fields) => Some(fields),
            _ => first_object(vals.drop_first()),
        }
    }
}

/// The text of field `key` in the first object of a command; empty where there
/// is none.
pub open spec fn info_text(vals: Seq<ValView>, key: Seq<char>) -> Seq<char> {
    match first_object(vals) {
        Some(fields) => match field_text(fields, key) {
            Some(s) => s,
            None => Seq::empty(),
        },
        None => Seq::empty(),
    }
}

/// The transaction id of a command: its second value, if that is a number.
pub open spec fn transaction(vals: Seq<ValView>) -> Option<u64> {
    if vals.len() > 1 {
        match vals[1] {
            ValView::Number(n) => Some(n),
            _ => None,
        }
    } else {
        None
    }
}

/// The name of a command: its first value, if that is a string.
pub open spec fn command_name(vals: Seq<ValView>) -> Seq<char> {
    if vals.len() > 0 {
        match vals[0] {
            ValView::String(s) => s,
            _ => Seq::empty(),
        }
    } else {
        Seq::empty()
    }
}

/// The fields of a list, one by one.
pub proof fn lemma_fields(fields: Seq<(String, Val)>)
    ensures
        fields_view(fields).len() == fields.len(),
        forall|i: int|
            0 <= i < fields.len() ==> fields_view(fields)[i] == ((#[trigger] fields[i]).0@, fields[
                i
            ].1@),
    decreases fields.len(),
{
    if fields.len() > 0 {
        lemma_fields(fields.drop_last());
        assert forall|i: int| 0 <= i < fields.len() implies fields_view(fields)[i] == ((
        #[trigger] fields[i]).0@, fields[i].1@) by {
            if i < fields.len() - 1 {
                assert(fields.drop_last()[i] == fields[i]);
            }
        }
    }
}

/// Transaction id of a decoded command (`vals[1]`), if it is a number.
pub fn txn_of(vals: &[Val]) -> (txn: Option<u64>)
    ensures
        txn == transaction(items_view(vals@)),
{
    proof {
        lemma_items(vals@);
    }
    if vals.len() > 1 {
        match &vals[1] {
            Val::Number(n) => Some(*n),
            _ => None,
        }
    } else {
        None
    }
}

/// Is this the command's name?
pub fn is_named(vals: &[Val], name: &str) -> (named: bool)
    requires
        vals@.len() > 0,
        vals@[0] is String,
    ensures
        named == (command_name(items_view(vals@)) == name@),
{
    proof {
        lemma_items(vals@);
    }
    match &vals[0] {
        Val::String(s) => same_text(s.as_str(), name),
        _ => false,
    }
}

/// First string field named `key` inside an AMF0 object.
pub fn str_field<'a>(fields: &'a Vec<(String, Val)>, key: &str) -> (text: Option<&'a str>)
    ensures
        match text {
            Some(s) => field_text(fields_view(fields@), key@) == Some(s@),
            None => field_text(fields_view(fields@), key@) is None,
        },
{
    let ghost all = fields_view(fields@);
    proof {
        lemma_fields(fields@);
        assert(all.skip(0) =~= all);
    }
    let mut i: usize = 0;
    while i < fields.len()
        invariant
            i <= fields@.len(),
            all == fields_view(fields@),
            all.len() == fields@.len(),
            forall|k: int|
                0 <= k < fields@.len() ==> all[k] == ((#[trigger] fields@[k]).0@, fields@[k].1@),
            field_text(all, key@) == field_text(all.skip(i as int), key@),
        decreases fields@.len() - i,
    {
        let ghost here = all.skip(i as int);
        assert(here.first() == (fields@[i as int].0@, fields@[i as int].1@));
        assert(here.drop_first() =~= all.skip(i + 1));
        if same_text(fields[i].0.as_str(), key) {
            return match &fields[i].1 {
                Val::String(s) => Some(s.as_str()),
                _ => None,
            };
        }
        i = i + 1;
    }
    None
}

/// Text of field `key` in the first object of a command.
pub fn info<'a>(vals: &'a [Val], key: &str) -> (text: Option<&'a str>)
    ensures
        match text {
            Some(s) => info_text(items_view(vals@), key@) == s@,
            None => info_text(items_view(vals@), key@) == Seq::<char>::empty(),
        },
{
    let ghost all = items_view(vals@);
    proof {
        lemma_items(vals@);
        assert(all.skip(0) =~= all);
    }
    let mut i: usize = 0;
    while i < vals.len()
        invariant
            i <= vals@.len(),
            all == items_view(vals@),
            all.len() == vals@.len(),
            forall|k: int| 0 <= k < vals@.len() ==> all[k] == (#[trigger] vals@[k])@,
            first_object(all) == first_object(all.skip(i as int)),
        decreases vals@.len() - i,
    {
        let ghost here = all.skip(i as int);
        assert(here.first() == vals@[i as int]@);
        assert(here.drop_first() =~= all.skip(i + 1));
        if let Val::Object(fields) = &vals[i] {
            return str_field(fields, key);
        }
        i = i + 1;
    }
    None
}

} // verus!
