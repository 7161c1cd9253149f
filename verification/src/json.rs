use vstd::prelude::*;

use crate::text::{parse_i32, parse_i64, spec_parse_i32, spec_parse_i64, string_views};

verus! {

/// A JSON value as the decoding rules of this crate see it: a string, a
/// number (kept as the text of the number) or anything else.
pub enum JsonField {
    Str(String),
    Num(String),
    Other,
}

/// The mathematical content of a [`JsonField`].
pub enum JsonFieldView {
    Str(Seq<char>),
    Num(Seq<char>),
    Other,
}

impl View for JsonField {
    type V = JsonFieldView;

    open spec fn view(&self) -> JsonFieldView {
        match self {
            JsonField::Str(s) => JsonFieldView::Str(s@),
            JsonField::Num(s) => JsonFieldView::Num(s@),
            JsonField::Other => JsonFieldView::Other,
        }
    }
}

impl Clone for JsonField {
    fn clone(&self) -> (r: Self)
        ensures
            r == *self,
    {
        match self {
            JsonField::Str(s) => JsonField::Str(s.clone()),
            JsonField::Num(s) => JsonField::Num(s.clone()),
            JsonField::Other => JsonField::Other,
        }
    }
}

/// The text of a JSON string, if the value is one (`Value::as_str`).
pub open spec fn field_text(f: JsonFieldView) -> Option<Seq<char>> {
    match f {
        JsonFieldView::Str(s) => Some(s),
        _ => None,
    }
}

/// A JSON string read as an `i64` (`as_str` then `parse::<i64>`).
pub open spec fn field_i64(f: JsonFieldView) -> Option<i64> {
    match f {
        JsonFieldView::Str(s) => spec_parse_i64(s),
        _ => None,
    }
}

/// A JSON string read as an `i32` (`as_str` then `parse::<i32>`).
pub open spec fn field_i32(f: JsonFieldView) -> Option<i32> {
    match f {
        JsonFieldView::Str(s) => spec_parse_i32(s),
        _ => None,
    }
}

/// The text of a JSON string; `None` for any other value.
pub fn as_str(value: &JsonField) -> (r: Option<&str>)
    ensures
        match r {
            Some(s) => field_text(value@) == Some(s@),
            None => field_text(value@) is None,
        },
{
    match value {
        JsonField::Str(s) => Some(s.as_str()),
        _ => None,
    }
}

/// A JSON string holding a decimal `i64`; `None` for anything else, numbers included.
pub fn as_i64(value: &JsonField) -> (r: Option<i64>)
    ensures
        r == field_i64(value@),
{
    match value {
        JsonField::Str(s) => parse_i64(s.as_str()),
        _ => None,
    }
}

/// A JSON string holding a decimal `i32`; `None` for anything else.
pub fn as_i32(value: &JsonField) -> (r: Option<i32>)
    ensures
        r == field_i32(value@),
{
    match value {
        JsonField::Str(s) => parse_i32(s.as_str()),
        _ => None,
    }
}

// ---------------------------------------------------------------------------
// Members of a JSON object, as a reader hands them over
// ---------------------------------------------------------------------------

/// One member of a JSON object, in the order the object writes it (a key
/// written twice gives two members). Where the value is a string that holds
/// a JSON object whose values are all arrays of strings, `string_arrays`
/// holds that inner object's members, again in document order with repeats
/// kept; otherwise it is `None`.
pub struct JsonMember {
    pub key: String,
    pub value: JsonField,
    pub string_arrays: Option<Vec<(String, Vec<String>)>>,
}

/// The mathematical content of a [`JsonMember`].
pub struct JsonMemberView {
    pub key: Seq<char>,
    pub value: JsonFieldView,
    pub string_arrays: Option<Seq<(Seq<char>, Seq<Seq<char>>)>>,
}

/// The views of named string arrays.
pub open spec fn string_array_map_view(v: Seq<(String, Vec<String>)>) -> Seq<(Seq<char>, Seq<Seq<char>>)> {
    v.map_values(|p: (String, Vec<String>)| (p.0@, string_views(p.1@)))
}

impl View for JsonMember {
    type V = JsonMemberView;

    open spec fn view(&self) -> JsonMemberView {
        JsonMemberView {
            key: self.key@,
            value: self.value@,
            string_arrays: match self.string_arrays {
                Some(es) => Some(string_array_map_view(es@)),
                None => None,
            },
        }
    }
}

/// The views of the members of an object.
pub open spec fn members_view(v: Seq<JsonMember>) -> Seq<JsonMemberView> {
    v.map_values(|m: JsonMember| m@)
}

// ---------------------------------------------------------------------------
// Reading JSON text, through serde_json
// ---------------------------------------------------------------------------

/// The strings of the JSON array of strings that serde_json reads from
/// `text`; `None` when the text is not an array of strings.
pub uninterp spec fn json_string_array(text: Seq<char>) -> Option<Seq<Seq<char>>>;

/// Reads a JSON array of strings with `serde_json::from_str::<Vec<String>>`.
/// What is claimed: the result is [`json_string_array`] of the text.
#[verifier::external_body]
pub(crate) fn parse_string_array(text: &str) -> (r: Option<Vec<String>>)
    ensures
        json_string_array(text@) == match r {
            Some(v) => Some(string_views(v@)),
            None => None,
        },
{
    serde_json::from_str::<Vec<String>>(text).ok()
}

} // verus!
