//! JSON documents that the library writes and reads itself.

use serde::de::IgnoredAny;
use serde_json::value::RawValue;
use serde_json::Value;
use std::collections::BTreeMap;
use vstd::prelude::*;
use vstd::string::*;
use vstd::utf8::*;

use crate::plain::views;
use crate::text::{decimal, decimal_text};

verus! {

/// What `serde_json` writes for a string: the text in quotes, with what needs it escaped.
pub uninterp spec fn json_string(text: Seq<char>) -> Seq<char>;

/// `Value::to_string` on a JSON string.
#[verifier::external_body]
pub(crate) fn json_quote(text: &str) -> (quoted: String)
    ensures
        quoted@ == json_string(text@),
{
    Value::String(text.to_string()).to_string()
}

/// A member of an object that the library writes.
#[derive(Debug, Clone, PartialEq, Eq)]
pub enum JsonScalar {
    Null,
    Natural(u64),
    Text(String),
}

/// What a written member says.
pub enum ScalarView {
    Null,
    Natural(u64),
    Text(Seq<char>),
}

impl View for JsonScalar {
    type V = ScalarView;

    open spec fn view(&self) -> ScalarView {
        match self {
            JsonScalar::Null => ScalarView::Null,
            JsonScalar::Natural(value) => ScalarView::Natural(*value),
            JsonScalar::Text(value) => ScalarView::Text(value@),
        }
    }
}

/// The JSON form of a member.
pub open spec fn json_scalar(value: ScalarView) -> Seq<char> {
    match value {
        ScalarView::Null => "null"@,
        ScalarView::Natural(number) => decimal(number as nat),
        ScalarView::Text(text) => json_string(text),
    }
}

/// The members of an object, each as its quoted name, a colon and its value, with commas between.
pub open spec fn json_members(members: Seq<(Seq<char>, ScalarView)>) -> Seq<char>
    decreases members.len(),
{
    if members.len() == 0 {
        Seq::empty()
    } else {
        let written = json_string(members.last().0) + seq![':'] + json_scalar(members.last().1);
        if members.len() == 1 {
            written
        } else {
            json_members(members.drop_last()) + seq![','] + written
        }
    }
}

/// The JSON form of an object with the given members, in their order.
pub open spec fn json_object(members: Seq<(Seq<char>, ScalarView)>) -> Seq<char> {
    seq!['{'] + json_members(members) + seq!['}']
}

/// The names and values of members.
pub open spec fn member_views(members: Seq<(&str, JsonScalar)>) -> Seq<(Seq<char>, ScalarView)> {
    members.map_values(|member: (&str, JsonScalar)| (member.0@, member.1@))
}

/// Writes the members of an object.
fn write_members(members: &[(&str, JsonScalar)]) -> (text: String)
    ensures
        text@ == json_members(member_views(members@)),
{
    let mut text = String::new();
    let ghost all = member_views(members@);
    let mut i: usize = 0;
    assert(text@ =~= json_members(all.take(0)));
    while i < members.len()
        invariant
            all == member_views(members@),
            i <= members.len(),
            text@ == json_members(all.take(i as int)),
        decreases members.len() - i,
    {
        if i > 0 {
            text.push(',');
        }
        let quoted = json_quote(members[i].0);
        let value = match &members[i].1 {
            JsonScalar::Null => "null".to_owned(),
            JsonScalar::Natural(number) => decimal_text(*number),
            JsonScalar::Text(content) => json_quote(content.as_str()),
        };
        text.append(quoted.as_str());
        text.push(':');
        text.append(value.as_str());
        proof {
            let n = i as int;
            let next = all.take(n + 1);
            assert(next.drop_last() =~= all.take(n));
            assert(next.last() == (members@[n].0@, members@[n].1@));
            assert(value@ == json_scalar(next.last().1));
            assert(text@ =~= json_members(next));
        }
        i = i + 1;
    }
    assert(all.take(i as int) =~= all);
    text
}

/// Writes an object.
pub fn write_object(members: &[(&str, JsonScalar)]) -> (text: String)
    ensures
        text@ == json_object(member_views(members@)),
{
    let mut text = String::new();
    text.push('{');
    text.append(write_members(members).as_str());
    text.push('}');
    assert(text@ =~= json_object(member_views(members@)));
    text
}

/// The JSON form of an object with an object under its first name, and further members.
pub open spec fn json_nested(
    name: Seq<char>,
    inner: Seq<char>,
    members: Seq<(Seq<char>, ScalarView)>,
) -> Seq<char> {
    seq!['{'] + json_string(name) + seq![':'] + inner + seq![','] + json_members(members) + seq![
        '}',
    ]
}

/// Writes an object with an object that is already written under its first name, and further
/// members.
pub fn write_nested(name: &str, inner: &str, members: &[(&str, JsonScalar)]) -> (text: String)
    ensures
        text@ == json_nested(name@, inner@, member_views(members@)),
{
    let mut text = String::new();
    text.push('{');
    text.append(json_quote(name).as_str());
    text.push(':');
    text.append(inner);
    text.push(',');
    text.append(write_members(members).as_str());
    text.push('}');
    assert(text@ =~= json_nested(name@, inner@, member_views(members@)));
    text
}

/// What a document holds under a name.
#[derive(Debug, Clone, PartialEq, Eq)]
pub enum JsonMember {
    /// The document is not a JSON object.
    Unreadable,
    Missing,
    Null,
    Natural(u64),
    Negative(i64),
    Text(String),
    /// An object, as it is written.
    Object(String),
    /// A list, as it is written.
    List(String),
    Other,
}

/// What a read member says.
pub enum MemberView {
    Unreadable,
    Missing,
    Null,
    Natural(u64),
    Negative(i64),
    Text(Seq<char>),
    Object(Seq<char>),
    List(Seq<char>),
    Other,
}

impl View for JsonMember {
    type V = MemberView;

    open spec fn view(&self) -> MemberView {
        match self {
            JsonMember::Unreadable => MemberView::Unreadable,
            JsonMember::Missing => MemberView::Missing,
            JsonMember::Null => MemberView::Null,
            JsonMember::Natural(value) => MemberView::Natural(*value),
            JsonMember::Negative(value) => MemberView::Negative(*value),
            JsonMember::Text(value) => MemberView::Text(value@),
            JsonMember::Object(value) => MemberView::Object(value@),
            JsonMember::List(value) => MemberView::List(value@),
            JsonMember::Other => MemberView::Other,
        }
    }
}

/// What a document holds under a name, as it is written.
#[derive(Debug, Clone, PartialEq, Eq)]
pub enum RawMember {
    /// The document is not a JSON object.
    Unreadable,
    Missing,
    Found(String),
}

/// What a document holds under a name, as it is written.
pub enum RawView {
    Unreadable,
    Missing,
    Found(Seq<char>),
}

impl View for RawMember {
    type V = RawView;

    open spec fn view(&self) -> RawView {
        match self {
            RawMember::Unreadable => RawView::Unreadable,
            RawMember::Missing => RawView::Missing,
            RawMember::Found(text) => RawView::Found(text@),
        }
    }
}

/// No two members have the same name.
pub open spec fn distinct_names(members: Seq<(Seq<char>, ScalarView)>) -> bool {
    forall|i: int, j: int|
        0 <= i < j < members.len() ==> (#[trigger] members[i]).0 != (#[trigger] members[j]).0
}

/// One of the members has this name.
pub open spec fn has_name(members: Seq<(Seq<char>, ScalarView)>, name: Seq<char>) -> bool {
    exists|i: int| 0 <= i < members.len() && (#[trigger] members[i]).0 == name
}

/// What is read of a written value.
pub open spec fn read_back(value: ScalarView) -> MemberView {
    match value {
        ScalarView::Null => MemberView::Null,
        ScalarView::Natural(number) => MemberView::Natural(number),
        ScalarView::Text(text) => MemberView::Text(text),
    }
}

/// What `serde_json::from_slice` finds under a name of the document, as it is written.
pub uninterp spec fn raw_member(document: Seq<u8>, name: Seq<char>) -> RawView;

/// `serde_json::from_slice` into a map of names to values that are left as they are written. Where
/// an object repeats a name, the last one counts. A member of an object that was written with
/// distinct names is found as it was written, and a name that none of them has is missing.
#[verifier::external_body]
fn read_raw_member(document: &[u8], name: &str) -> (member: RawMember)
    ensures
        member@ == raw_member(document@, name@),
        forall|members: Seq<(Seq<char>, ScalarView)>, i: int|
            document@ == #[trigger] encode_utf8(json_object(members)) && distinct_names(members)
                && 0 <= i < members.len() && (#[trigger] members[i]).0 == name@ ==> member@
                == RawView::Found(json_scalar(members[i].1)),
        forall|members: Seq<(Seq<char>, ScalarView)>|
            document@ == #[trigger] encode_utf8(json_object(members)) && distinct_names(members)
                && !has_name(members, name@) ==> member@ == RawView::Missing,
{
    match serde_json::from_slice::<BTreeMap<String, Box<RawValue>>>(document) {
        Err(_) => RawMember::Unreadable,
        Ok(members) => match members.get(name) {
            None => RawMember::Missing,
            Some(value) => RawMember::Found(value.get().to_string()),
        },
    }
}

/// The elements that `serde_json::from_slice` finds in the document, as they are written, if it is a
/// list.
pub uninterp spec fn raw_elements(document: Seq<u8>) -> Option<Seq<Seq<char>>>;

/// `serde_json::from_slice` into a list of values that are left as they are written. What was written
/// as an object is no list.
#[verifier::external_body]
fn read_raw_elements(document: &[u8]) -> (elements: Option<Vec<String>>)
    ensures
        raw_elements(document@) == match elements {
            Some(list) => Some(views(list@)),
            None => None,
        },
        forall|members: Seq<(Seq<char>, ScalarView)>|
            document@ == #[trigger] encode_utf8(json_object(members)) ==> elements is None,
{
    let elements: Vec<Box<RawValue>> = serde_json::from_slice(document).ok()?;
    Some(elements.iter().map(|element| element.get().to_string()).collect())
}

/// What `serde_json::from_str` makes of a value.
pub uninterp spec fn value_read(text: Seq<char>) -> MemberView;

/// `serde_json::from_str` on a value: nothing, a number, a text, or an object or a list, which are
/// left as they are written. A value that the library writes is read as what was written.
#[verifier::external_body]
fn read_value(text: &str) -> (value: JsonMember)
    ensures
        value@ == value_read(text@),
        forall|written: ScalarView|
            text@ == #[trigger] json_scalar(written) ==> value@ == read_back(written),
{
    serde_json::from_str::<()>(text)
        .map(|()| JsonMember::Null)
        .or_else(|_| serde_json::from_str(text).map(JsonMember::Natural))
        .or_else(|_| serde_json::from_str(text).map(JsonMember::Negative))
        .or_else(|_| serde_json::from_str(text).map(JsonMember::Text))
        .or_else(|_| serde_json::from_str::<BTreeMap<String, IgnoredAny>>(text)
            .map(|_| JsonMember::Object(text.to_string())))
        .or_else(|_| serde_json::from_str::<Vec<IgnoredAny>>(text)
            .map(|_| JsonMember::List(text.to_string())))
        .unwrap_or(JsonMember::Other)
}

/// What a document holds under a name.
pub open spec fn json_member(document: Seq<u8>, name: Seq<char>) -> MemberView {
    match raw_member(document, name) {
        RawView::Unreadable => MemberView::Unreadable,
        RawView::Missing => MemberView::Missing,
        RawView::Found(text) => value_read(text),
    }
}

/// What a document holds under a name. A member of an object that was written with distinct names
/// reads as what was written, and a name that none of them has is missing.
pub(crate) fn read_member(document: &[u8], name: &str) -> (member: JsonMember)
    ensures
        member@ == json_member(document@, name@),
        forall|members: Seq<(Seq<char>, ScalarView)>, i: int|
            document@ == #[trigger] encode_utf8(json_object(members)) && distinct_names(members)
                && 0 <= i < members.len() && (#[trigger] members[i]).0 == name@ ==> member@
                == read_back(members[i].1),
        forall|members: Seq<(Seq<char>, ScalarView)>|
            document@ == #[trigger] encode_utf8(json_object(members)) && distinct_names(members)
                && !has_name(members, name@) ==> member@ == MemberView::Missing,
{
    match read_raw_member(document, name) {
        RawMember::Unreadable => JsonMember::Unreadable,
        RawMember::Missing => JsonMember::Missing,
        RawMember::Found(text) => read_value(text.as_str()),
    }
}

/// What a document holds for a field of a record with so many fields: under its name where the
/// document is an object, and at its place where it is a list with an element for each of them.
pub open spec fn json_field(
    document: Seq<u8>,
    name: Seq<char>,
    place: int,
    count: int,
) -> MemberView {
    match raw_elements(document) {
        Some(elements) => if elements.len() == count {
            value_read(elements[place])
        } else {
            MemberView::Unreadable
        },
        None => json_member(document, name),
    }
}

/// What a document holds for a field of a record. What was written as an object with distinct names
/// reads as what was written.
pub(crate) fn read_field(document: &[u8], name: &str, place: usize, count: usize) -> (member:
    JsonMember)
    requires
        place < count,
    ensures
        member@ == json_field(document@, name@, place as int, count as int),
        forall|members: Seq<(Seq<char>, ScalarView)>, i: int|
            document@ == #[trigger] encode_utf8(json_object(members)) && distinct_names(members)
                && 0 <= i < members.len() && (#[trigger] members[i]).0 == name@ ==> member@
                == read_back(members[i].1),
        forall|members: Seq<(Seq<char>, ScalarView)>|
            document@ == #[trigger] encode_utf8(json_object(members)) && distinct_names(members)
                && !has_name(members, name@) ==> member@ == MemberView::Missing,
{
    match read_raw_elements(document) {
        Some(elements) => if elements.len() == count {
            read_value(elements[place].as_str())
        } else {
            JsonMember::Unreadable
        },
        None => read_member(document, name),
    }
}

/// The list of texts that `serde_json::from_str` makes of a value, if it is one.
pub uninterp spec fn texts_read(text: Seq<char>) -> Option<Seq<Seq<char>>>;

/// `serde_json::from_str` into a list of strings.
#[verifier::external_body]
fn read_text_list(text: &str) -> (texts: Option<Vec<String>>)
    ensures
        texts_read(text@) == match texts {
            Some(list) => Some(views(list@)),
            None => None,
        },
{
    serde_json::from_str(text).ok()
}

/// The list of texts that a document holds under a name, if there is one.
pub open spec fn json_texts(document: Seq<u8>, name: Seq<char>) -> Option<Seq<Seq<char>>> {
    match raw_member(document, name) {
        RawView::Found(text) => texts_read(text),
        _ => None,
    }
}

/// The list of texts that a document holds under a name, if there is one.
pub(crate) fn read_texts(document: &[u8], name: &str) -> (texts: Option<Vec<String>>)
    ensures
        json_texts(document@, name@) == match texts {
            Some(list) => Some(views(list@)),
            None => None,
        },
{
    match read_raw_member(document, name) {
        RawMember::Found(text) => read_text_list(text.as_str()),
        _ => None,
    }
}

} // verus!
