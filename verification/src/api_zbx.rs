use vstd::prelude::*;
use vstd::std_specs::convert::FromSpecImpl;

use crate::json::{
    json_string_array, members_view, parse_string_array, string_array_map_view, JsonField,
    JsonFieldView, JsonMember, JsonMemberView,
};
use crate::text::{
    all_digits, is_blank, is_blank_text, lemma_short_decimal, parse_i64, parse_u64, spec_parse_i64,
    spec_parse_u64, str_eq, string_views,
};

verus! {

// ---------------------------------------------------------------------------
// Decoding errors
// ---------------------------------------------------------------------------

/// A field of an audit-log record or of a resource operation.
#[derive(PartialEq, Eq, Structural, Clone, Copy, Debug)]
pub enum FieldName {
    ResourceId,
    Details,
    Action,
    Clock,
    ResourceName,
    Value,
    New,
    Old,
}

/// Why a Zabbix payload could not be decoded.
#[derive(PartialEq, Eq, Structural, Clone, Copy, Debug)]
pub enum DecodeError {
    /// The text is not JSON of the expected shape.
    Syntax,
    /// A resource operation with no elements at all.
    Empty,
    /// A resource operation whose tag is not `add`, `update` or `delete`.
    UnknownVariant,
    /// A resource operation with more elements than its tag takes.
    TrailingElements,
    /// A value that should hold an `i64` does not.
    NotAnInteger,
    MissingField(FieldName),
    DuplicateField(FieldName),
    InvalidValue(FieldName),
}

// ---------------------------------------------------------------------------
// Integers written either as JSON numbers or as strings
// ---------------------------------------------------------------------------

/// An `i64` written as a JSON number or as a string of digits.
pub open spec fn flexible_i64(v: JsonFieldView) -> Option<i64> {
    match v {
        JsonFieldView::Str(s) => spec_parse_i64(s),
        JsonFieldView::Num(t) => spec_parse_i64(t),
        JsonFieldView::Other => None,
    }
}

/// Reads an `i64` given either as a JSON number or as a string of digits.
pub fn de_i64_from_str_or_num(v: &JsonField) -> (r: Result<i64, DecodeError>)
    ensures
        match flexible_i64(v@) {
            Some(x) => r == Ok::<i64, DecodeError>(x),
            None => r == Err::<i64, DecodeError>(DecodeError::NotAnInteger),
        },
{
    match v {
        JsonField::Str(s) => match parse_i64(s.as_str()) {
            Some(x) => Ok(x),
            None => Err(DecodeError::NotAnInteger),
        },
        JsonField::Num(t) => match parse_i64(t.as_str()) {
            Some(x) => Ok(x),
            None => Err(DecodeError::NotAnInteger),
        },
        JsonField::Other => Err(DecodeError::NotAnInteger),
    }
}

// ---------------------------------------------------------------------------
// Audit-log actions
// ---------------------------------------------------------------------------

/// What an audit-log record reports was done to a resource.
#[derive(PartialEq, Eq, Structural, Clone, Copy, Debug)]
pub enum AuditAction {
    Add,
    Update,
    Delete,
}

/// The action written `0`, `1` or `2` (as a string or as a number).
pub open spec fn audit_action_of_text(t: Seq<char>) -> Option<AuditAction> {
    if t == "0"@ {
        Some(AuditAction::Add)
    } else if t == "1"@ {
        Some(AuditAction::Update)
    } else if t == "2"@ {
        Some(AuditAction::Delete)
    } else {
        None
    }
}

/// The action that a JSON value names.
pub open spec fn audit_action_of(v: JsonFieldView) -> Option<AuditAction> {
    match v {
        JsonFieldView::Str(s) => audit_action_of_text(s),
        JsonFieldView::Num(t) => audit_action_of_text(t),
        JsonFieldView::Other => None,
    }
}

impl AuditAction {
    /// Reads the action from `"0"`, `"1"`, `"2"` or the numbers 0, 1, 2.
    pub fn from_json(v: &JsonField) -> (r: Option<Self>)
        ensures
            r == audit_action_of(v@),
    {
        let t = match v {
            JsonField::Str(s) => s.as_str(),
            JsonField::Num(t) => t.as_str(),
            JsonField::Other => {
                return None;
            },
        };
        if str_eq(t, "0") {
            Some(AuditAction::Add)
        } else if str_eq(t, "1") {
            Some(AuditAction::Update)
        } else if str_eq(t, "2") {
            Some(AuditAction::Delete)
        } else {
            None
        }
    }
}

// ---------------------------------------------------------------------------
// Resource operations
// ---------------------------------------------------------------------------

/// One change to one property of a resource, as the `details` of an audit
/// record list it: `["add", value]`, `["update", new, old]` or `["delete", value]`.
#[derive(Debug)]
pub enum ZbxResourceOp {
    Add { value: String },
    Update { new: String, old: String },
    Delete { value: String },
}

/// The mathematical content of a [`ZbxResourceOp`].
pub enum ResourceOpView {
    Add { value: Seq<char> },
    Update { new: Seq<char>, old: Seq<char> },
    Delete { value: Seq<char> },
}

impl View for ZbxResourceOp {
    type V = ResourceOpView;

    open spec fn view(&self) -> ResourceOpView {
        match self {
            ZbxResourceOp::Add { value } => ResourceOpView::Add { value: value@ },
            ZbxResourceOp::Update { new, old } => ResourceOpView::Update { new: new@, old: old@ },
            ZbxResourceOp::Delete { value } => ResourceOpView::Delete { value: value@ },
        }
    }
}

/// The views of a decoding result.
pub open spec fn op_result_view(r: Result<ZbxResourceOp, DecodeError>) -> Result<ResourceOpView, DecodeError> {
    match r {
        Ok(op) => Ok(op@),
        Err(e) => Err(e),
    }
}

/// The operation that a list of strings writes: a tag, then exactly the
/// values that the tag takes.
pub open spec fn resource_op_of(elems: Seq<Seq<char>>) -> Result<ResourceOpView, DecodeError> {
    if elems.len() == 0 {
        Err(DecodeError::Empty)
    } else if elems[0] == "add"@ || elems[0] == "delete"@ {
        if elems.len() < 2 {
            Err(DecodeError::MissingField(FieldName::Value))
        } else if elems.len() > 2 {
            Err(DecodeError::TrailingElements)
        } else if elems[0] == "add"@ {
            Ok(ResourceOpView::Add { value: elems[1] })
        } else {
            Ok(ResourceOpView::Delete { value: elems[1] })
        }
    } else if elems[0] == "update"@ {
        if elems.len() < 2 {
            Err(DecodeError::MissingField(FieldName::New))
        } else if elems.len() < 3 {
            Err(DecodeError::MissingField(FieldName::Old))
        } else if elems.len() > 3 {
            Err(DecodeError::TrailingElements)
        } else {
            Ok(ResourceOpView::Update { new: elems[1], old: elems[2] })
        }
    } else {
        Err(DecodeError::UnknownVariant)
    }
}

impl ZbxResourceOp {
    /// Decodes an operation from the strings of its JSON array.
    pub fn from_elements(elems: &Vec<String>) -> (r: Result<Self, DecodeError>)
        ensures
            op_result_view(r) == resource_op_of(string_views(elems@)),
    {
        let ghost v = string_views(elems@);
        let n = elems.len();
        if n == 0 {
            return Err(DecodeError::Empty);
        }
        assert(v[0] == elems@[0]@);
        let tag = elems[0].as_str();
        let is_add = str_eq(tag, "add");
        let is_delete = str_eq(tag, "delete");
        if is_add || is_delete {
            if n < 2 {
                return Err(DecodeError::MissingField(FieldName::Value));
            }
            if n > 2 {
                return Err(DecodeError::TrailingElements);
            }
            assert(v[1] == elems@[1]@);
            let value = elems[1].clone();
            if is_add {
                Ok(ZbxResourceOp::Add { value })
            } else {
                Ok(ZbxResourceOp::Delete { value })
            }
        } else if str_eq(tag, "update") {
            if n < 2 {
                return Err(DecodeError::MissingField(FieldName::New));
            }
            if n < 3 {
                return Err(DecodeError::MissingField(FieldName::Old));
            }
            if n > 3 {
                return Err(DecodeError::TrailingElements);
            }
            assert(v[1] == elems@[1]@ && v[2] == elems@[2]@);
            Ok(ZbxResourceOp::Update { new: elems[1].clone(), old: elems[2].clone() })
        } else {
            Err(DecodeError::UnknownVariant)
        }
    }

    /// Decodes an operation from JSON text such as `["update", "new", "old"]`.
    pub fn from_json(text: &str) -> (r: Result<Self, DecodeError>)
        ensures
            op_result_view(r) == match json_string_array(text@) {
                Some(elems) => resource_op_of(elems),
                None => Err(DecodeError::Syntax),
            },
    {
        match parse_string_array(text) {
            Some(elems) => ZbxResourceOp::from_elements(&elems),
            None => Err(DecodeError::Syntax),
        }
    }
}

// ---------------------------------------------------------------------------
// The details of an audit record: property name to operation
// ---------------------------------------------------------------------------

/// The map that a list of distinct-keyed entries stands for.
pub open spec fn entries_map(s: Seq<(String, ZbxResourceOp)>) -> Map<Seq<char>, ResourceOpView>
    decreases s.len(),
{
    if s.len() == 0 {
        Map::empty()
    } else {
        entries_map(s.drop_last()).insert(s.last().0@, s.last().1@)
    }
}

/// Whether no two entries share a key.
pub open spec fn keys_distinct(s: Seq<(String, ZbxResourceOp)>) -> bool {
    forall|i: int, j: int| 0 <= i < j < s.len() ==> s[i].0@ != s[j].0@
}

proof fn lemma_entries_map(s: Seq<(String, ZbxResourceOp)>)
    requires
        keys_distinct(s),
    ensures
        entries_map(s).dom().finite(),
        entries_map(s).len() == s.len(),
        forall|i: int| 0 <= i < s.len() ==> #[trigger] entries_map(s).contains_key(s[i].0@)
            && entries_map(s)[s[i].0@] == s[i].1@,
        forall|k: Seq<char>| #[trigger] entries_map(s).contains_key(k) ==> exists|i: int|
            0 <= i < s.len() && s[i].0@ == k,
    decreases s.len(),
{
    if s.len() > 0 {
        let t = s.drop_last();
        assert(keys_distinct(t));
        lemma_entries_map(t);
        let last = s.last();
        assert(!entries_map(t).contains_key(last.0@)) by {
            if entries_map(t).contains_key(last.0@) {
                let i = choose|i: int| 0 <= i < t.len() && t[i].0@ == last.0@;
                assert(s[i].0@ != s[s.len() - 1].0@);
            }
        }
        assert forall|i: int| 0 <= i < s.len() implies #[trigger] entries_map(s).contains_key(s[i].0@)
            && entries_map(s)[s[i].0@] == s[i].1@ by {
            if i < s.len() - 1 {
                assert(t[i] == s[i]);
                assert(s[i].0@ != s[s.len() - 1].0@);
            }
        }
        assert forall|k: Seq<char>| #[trigger] entries_map(s).contains_key(k) implies exists|i: int|
            0 <= i < s.len() && s[i].0@ == k by {
            if k != last.0@ {
                assert(entries_map(t).contains_key(k));
                let i = choose|i: int| 0 <= i < t.len() && t[i].0@ == k;
                assert(s[i] == t[i]);
            } else {
                assert(s[s.len() - 1].0@ == k);
            }
        }
    }
}

proof fn lemma_entries_map_update(s: Seq<(String, ZbxResourceOp)>, i: int, e: (String, ZbxResourceOp))
    requires
        keys_distinct(s),
        0 <= i < s.len(),
        e.0@ == s[i].0@,
    ensures
        entries_map(s.update(i, e)) == entries_map(s).insert(e.0@, e.1@),
    decreases s.len(),
{
    let u = s.update(i, e);
    if i == s.len() - 1 {
        assert(u.drop_last() =~= s.drop_last());
        assert(entries_map(u) =~= entries_map(s).insert(e.0@, e.1@));
    } else {
        assert(u.drop_last() =~= s.drop_last().update(i, e));
        assert(keys_distinct(s.drop_last()));
        lemma_entries_map_update(s.drop_last(), i, e);
        assert(s[i].0@ != s[s.len() - 1].0@);
        assert(entries_map(u) =~= entries_map(s).insert(e.0@, e.1@));
    }
}

/// The changes an audit record lists, by property name (such as `host.host`).
#[derive(Debug)]
pub struct AuditDetails {
    entries: Vec<(String, ZbxResourceOp)>,
}

impl View for AuditDetails {
    type V = Map<Seq<char>, ResourceOpView>;

    closed spec fn view(&self) -> Map<Seq<char>, ResourceOpView> {
        entries_map(self.entries@)
    }
}

impl AuditDetails {
    #[verifier::type_invariant]
    spec fn wf(self) -> bool {
        keys_distinct(self.entries@)
    }

    /// No change at all.
    pub fn new() -> (r: Self)
        ensures
            r@ == Map::<Seq<char>, ResourceOpView>::empty(),
    {
        AuditDetails { entries: Vec::new() }
    }

    /// How many properties are changed.
    pub fn len(&self) -> (r: usize)
        ensures
            r == self@.len(),
    {
        proof {
            use_type_invariant(self);
            lemma_entries_map(self.entries@);
        }
        self.entries.len()
    }

    /// Whether no property is changed.
    pub fn is_empty(&self) -> (r: bool)
        ensures
            r == (self@.len() == 0),
    {
        self.len() == 0
    }

    /// The change to property `key`, if any.
    pub fn get(&self, key: &str) -> (r: Option<&ZbxResourceOp>)
        ensures
            match r {
                Some(op) => self@.contains_key(key@) && self@[key@] == op@,
                None => !self@.contains_key(key@),
            },
    {
        proof {
            use_type_invariant(self);
            lemma_entries_map(self.entries@);
        }
        let n = self.entries.len();
        let mut i: usize = 0;
        while i < n
            invariant
                i <= n,
                n == self.entries@.len(),
                keys_distinct(self.entries@),
                forall|j: int| 0 <= j < i ==> self.entries@[j].0@ != key@,
            decreases n - i,
        {
            if str_eq(self.entries[i].0.as_str(), key) {
                proof {
                    lemma_entries_map(self.entries@);
                }
                return Some(&self.entries[i].1);
            }
            i = i + 1;
        }
        None
    }

    /// Records `op` as the change to `key`, replacing any earlier one.
    pub fn insert(&mut self, key: String, op: ZbxResourceOp)
        ensures
            final(self)@ == old(self)@.insert(key@, op@),
    {
        proof {
            use_type_invariant(&*self);
        }
        let mut entries: Vec<(String, ZbxResourceOp)> = Vec::new();
        std::mem::swap(&mut entries, &mut self.entries);
        let ghost before = entries@;
        assert(entries_map(before) == old(self)@);
        let n = entries.len();
        let mut i: usize = 0;
        while i < n
            invariant
                i <= n,
                n == entries@.len(),
                entries@ == before,
                entries_map(before) == old(self)@,
                keys_distinct(before),
                forall|j: int| 0 <= j < i ==> before[j].0@ != key@,
            decreases n - i,
        {
            if str_eq(entries[i].0.as_str(), key.as_str()) {
                proof {
                    lemma_entries_map_update(before, i as int, (key, op));
                }
                entries.set(i, (key, op));
                assert(entries@ =~= before.update(i as int, (key, op)));
                assert forall|a: int, b: int| 0 <= a < b < entries@.len() implies entries@[a].0@
                    != entries@[b].0@ by {
                    assert(before[a].0@ != before[b].0@);
                }
                self.entries = entries;
                return;
            }
            i = i + 1;
        }
        entries.push((key, op));
        assert(entries@.drop_last() =~= before);
        assert forall|a: int, b: int| 0 <= a < b < entries@.len() implies entries@[a].0@
            != entries@[b].0@ by {
            if b < before.len() {
                assert(before[a].0@ != before[b].0@);
            } else {
                assert(before[a].0@ != key@);
            }
        }
        self.entries = entries;
    }
}

/// The changes that a list of `(property, operation strings)` entries
/// describes, a later entry replacing an earlier one for the same property;
/// the first operation that does not decode makes the whole list fail.
pub open spec fn details_of_entries(es: Seq<(Seq<char>, Seq<Seq<char>>)>) -> Result<
    Map<Seq<char>, ResourceOpView>,
    DecodeError,
>
    decreases es.len(),
{
    if es.len() == 0 {
        Ok(Map::empty())
    } else {
        match details_of_entries(es.drop_last()) {
            Err(e) => Err(e),
            Ok(m) => match resource_op_of(es.last().1) {
                Err(e) => Err(e),
                Ok(op) => Ok(m.insert(es.last().0, op)),
            },
        }
    }
}

/// The changes that the `details` string of an audit record describes:
/// none for a blank string; otherwise those of the JSON object of operation
/// arrays that the string holds, whose members `string_arrays` gives in
/// document order (`None` when the string holds no such object).
pub open spec fn details_of_string(
    raw: Seq<char>,
    string_arrays: Option<Seq<(Seq<char>, Seq<Seq<char>>)>>,
) -> Result<Map<Seq<char>, ResourceOpView>, DecodeError> {
    if is_blank_text(raw) {
        Ok(Map::empty())
    } else {
        match string_arrays {
            None => Err(DecodeError::Syntax),
            Some(es) => details_of_entries(es),
        }
    }
}

/// The views of a decoding result.
pub open spec fn details_result_view(r: Result<AuditDetails, DecodeError>) -> Result<
    Map<Seq<char>, ResourceOpView>,
    DecodeError,
> {
    match r {
        Ok(d) => Ok(d@),
        Err(e) => Err(e),
    }
}

proof fn lemma_details_failure_sticks(es: Seq<(Seq<char>, Seq<Seq<char>>)>, k: int, e: DecodeError)
    requires
        0 <= k <= es.len(),
        details_of_entries(es.take(k)) == Err::<Map<Seq<char>, ResourceOpView>, DecodeError>(e),
    ensures
        details_of_entries(es) == Err::<Map<Seq<char>, ResourceOpView>, DecodeError>(e),
    decreases es.len() - k,
{
    if k == es.len() {
        assert(es.take(k) =~= es);
    } else {
        assert(es.take(k + 1).drop_last() =~= es.take(k));
        lemma_details_failure_sticks(es, k + 1, e);
    }
}

impl AuditDetails {
    /// Decodes the changes from `(property, operation strings)` entries.
    pub fn from_entries(entries: &Vec<(String, Vec<String>)>) -> (r: Result<Self, DecodeError>)
        ensures
            details_result_view(r) == details_of_entries(string_array_map_view(entries@)),
    {
        let ghost es = string_array_map_view(entries@);
        let mut d = AuditDetails::new();
        let n = entries.len();
        let mut i: usize = 0;
        assert(es.take(0) =~= Seq::<(Seq<char>, Seq<Seq<char>>)>::empty());
        while i < n
            invariant
                i <= n,
                n == entries@.len(),
                es == string_array_map_view(entries@),
                details_of_entries(es.take(i as int)) == Ok::<Map<Seq<char>, ResourceOpView>, DecodeError>(d@),
            decreases n - i,
        {
            assert(es.take(i + 1).drop_last() =~= es.take(i as int));
            assert(es.take(i + 1).last() == es[i as int]);
            assert(es[i as int] == (entries@[i as int].0@, string_views(entries@[i as int].1@)));
            let op = ZbxResourceOp::from_elements(&entries[i].1);
            match op {
                Ok(op) => {
                    d.insert(entries[i].0.clone(), op);
                },
                Err(e) => {
                    proof {
                        lemma_details_failure_sticks(es, i + 1, e);
                    }
                    return Err(e);
                },
            }
            i = i + 1;
        }
        assert(es.take(n as int) =~= es);
        Ok(d)
    }

    /// Decodes the changes from the `details` string of an audit record,
    /// given the members of the JSON object that the string holds.
    pub fn decode(raw: &str, string_arrays: &Option<Vec<(String, Vec<String>)>>) -> (r: Result<
        Self,
        DecodeError,
    >)
        ensures
            details_result_view(r) == details_of_string(
                raw@,
                match string_arrays {
                    Some(es) => Some(string_array_map_view(es@)),
                    None => None,
                },
            ),
    {
        if is_blank(raw) {
            return Ok(AuditDetails::new());
        }
        match string_arrays {
            None => Err(DecodeError::Syntax),
            Some(es) => AuditDetails::from_entries(es),
        }
    }
}

// ---------------------------------------------------------------------------
// Audit-log records
// ---------------------------------------------------------------------------

/// One record of Zabbix's audit log: which resource, what was changed, how,
/// when, and the resource's name.
#[derive(Debug)]
pub struct ZbxAuditLog {
    pub resourceid: i64,
    pub details: AuditDetails,
    pub action: AuditAction,
    pub clock: i64,
    pub resourcename: String,
}

/// The mathematical content of a [`ZbxAuditLog`].
pub struct AuditLogView {
    pub resourceid: i64,
    pub details: Map<Seq<char>, ResourceOpView>,
    pub action: AuditAction,
    pub clock: i64,
    pub resourcename: Seq<char>,
}

impl View for ZbxAuditLog {
    type V = AuditLogView;

    open spec fn view(&self) -> AuditLogView {
        AuditLogView {
            resourceid: self.resourceid,
            details: self.details@,
            action: self.action,
            clock: self.clock,
            resourcename: self.resourcename@,
        }
    }
}

/// The views of a decoding result.
pub open spec fn log_result_view(r: Result<ZbxAuditLog, DecodeError>) -> Result<AuditLogView, DecodeError> {
    match r {
        Ok(l) => Ok(l@),
        Err(e) => Err(e),
    }
}

/// The fields of an audit record read so far.
pub struct AuditScan {
    pub resourceid: Option<i64>,
    pub details: Option<Map<Seq<char>, ResourceOpView>>,
    pub action: Option<AuditAction>,
    pub clock: Option<i64>,
    pub resourcename: Option<Seq<char>>,
}

/// Reading one field of an audit record. A known field seen twice, or
/// whose value does not decode, is an error; other fields are skipped.
pub open spec fn audit_scan_step(st: AuditScan, m: JsonMemberView) -> Result<AuditScan, DecodeError> {
    let key = m.key;
    let v = m.value;
    if key == "resourceid"@ {
        if st.resourceid is Some {
            Err(DecodeError::DuplicateField(FieldName::ResourceId))
        } else {
            match flexible_i64(v) {
                Some(x) => Ok(AuditScan { resourceid: Some(x), ..st }),
                None => Err(DecodeError::InvalidValue(FieldName::ResourceId)),
            }
        }
    } else if key == "details"@ {
        match v {
            JsonFieldView::Str(raw) => if st.details is Some {
                Err(DecodeError::DuplicateField(FieldName::Details))
            } else {
                match details_of_string(raw, m.string_arrays) {
                    Ok(d) => Ok(AuditScan { details: Some(d), ..st }),
                    Err(_) => Err(DecodeError::InvalidValue(FieldName::Details)),
                }
            },
            _ => Err(DecodeError::InvalidValue(FieldName::Details)),
        }
    } else if key == "action"@ {
        if st.action is Some {
            Err(DecodeError::DuplicateField(FieldName::Action))
        } else {
            match audit_action_of(v) {
                Some(a) => Ok(AuditScan { action: Some(a), ..st }),
                None => Err(DecodeError::InvalidValue(FieldName::Action)),
            }
        }
    } else if key == "clock"@ {
        if st.clock is Some {
            Err(DecodeError::DuplicateField(FieldName::Clock))
        } else {
            match flexible_i64(v) {
                Some(x) => Ok(AuditScan { clock: Some(x), ..st }),
                None => Err(DecodeError::InvalidValue(FieldName::Clock)),
            }
        }
    } else if key == "resourcename"@ {
        if st.resourcename is Some {
            Err(DecodeError::DuplicateField(FieldName::ResourceName))
        } else {
            match v {
                JsonFieldView::Str(n) => Ok(AuditScan { resourcename: Some(n), ..st }),
                _ => Err(DecodeError::InvalidValue(FieldName::ResourceName)),
            }
        }
    } else {
        Ok(st)
    }
}

/// Reading the fields of an audit record in order; the first error stops it.
pub open spec fn audit_scan(fields: Seq<JsonMemberView>) -> Result<AuditScan, DecodeError>
    decreases fields.len(),
{
    if fields.len() == 0 {
        Ok(AuditScan { resourceid: None, details: None, action: None, clock: None, resourcename: None })
    } else {
        match audit_scan(fields.drop_last()) {
            Err(e) => Err(e),
            Ok(st) => audit_scan_step(st, fields.last()),
        }
    }
}

/// The audit record that a JSON object's members describe. `resourceid`,
/// `details` and `action` are required (checked in that order); a missing
/// `clock` reads as 0 and a missing `resourcename` as the empty name.
pub open spec fn audit_log_of(fields: Seq<JsonMemberView>) -> Result<AuditLogView, DecodeError> {
    match audit_scan(fields) {
        Err(e) => Err(e),
        Ok(st) => if st.resourceid is None {
            Err(DecodeError::MissingField(FieldName::ResourceId))
        } else if st.details is None {
            Err(DecodeError::MissingField(FieldName::Details))
        } else if st.action is None {
            Err(DecodeError::MissingField(FieldName::Action))
        } else {
            Ok(AuditLogView {
                resourceid: st.resourceid->0,
                details: st.details->0,
                action: st.action->0,
                clock: match st.clock {
                    Some(c) => c,
                    None => 0,
                },
                resourcename: match st.resourcename {
                    Some(n) => n,
                    None => Seq::<char>::empty(),
                },
            })
        },
    }
}

/// The audit records of a list of JSON objects; the first that fails to
/// decode makes the whole list fail.
pub open spec fn audit_logs_of(l: Seq<Seq<JsonMemberView>>) -> Result<Seq<AuditLogView>, DecodeError>
    decreases l.len(),
{
    if l.len() == 0 {
        Ok(seq![])
    } else {
        match audit_logs_of(l.drop_last()) {
            Err(e) => Err(e),
            Ok(prev) => match audit_log_of(l.last()) {
                Err(e) => Err(e),
                Ok(x) => Ok(prev.push(x)),
            },
        }
    }
}

/// The fields read so far, as an [`AuditScan`].
pub open spec fn scan_view(
    resourceid: Option<i64>,
    details: Option<AuditDetails>,
    action: Option<AuditAction>,
    clock: Option<i64>,
    resourcename: Option<String>,
) -> AuditScan {
    AuditScan {
        resourceid,
        details: match details {
            Some(d) => Some(d@),
            None => None,
        },
        action,
        clock,
        resourcename: match resourcename {
            Some(n) => Some(n@),
            None => None,
        },
    }
}

proof fn lemma_scan_failure_sticks(fields: Seq<JsonMemberView>, k: int, e: DecodeError)
    requires
        0 <= k <= fields.len(),
        audit_scan(fields.take(k)) == Err::<AuditScan, DecodeError>(e),
    ensures
        audit_scan(fields) == Err::<AuditScan, DecodeError>(e),
    decreases fields.len() - k,
{
    if k == fields.len() {
        assert(fields.take(k) =~= fields);
    } else {
        assert(fields.take(k + 1).drop_last() =~= fields.take(k));
        lemma_scan_failure_sticks(fields, k + 1, e);
    }
}

impl ZbxAuditLog {
    /// Decodes an audit record from the members of its JSON object, taken
    /// in document order with repeated keys kept.
    pub fn from_fields(fields: &Vec<JsonMember>) -> (r: Result<Self, DecodeError>)
        ensures
            log_result_view(r) == audit_log_of(members_view(fields@)),
    {
        let ghost fv = members_view(fields@);
        let mut resourceid: Option<i64> = None;
        let mut details: Option<AuditDetails> = None;
        let mut action: Option<AuditAction> = None;
        let mut clock: Option<i64> = None;
        let mut resourcename: Option<String> = None;
        let n = fields.len();
        let mut i: usize = 0;
        assert(fv.take(0) =~= Seq::<JsonMemberView>::empty());
        while i < n
            invariant
                i <= n,
                n == fields@.len(),
                fv == members_view(fields@),
                audit_scan(fv.take(i as int)) == Ok::<AuditScan, DecodeError>(
                    scan_view(resourceid, details, action, clock, resourcename),
                ),
            decreases n - i,
        {
            assert(fv.take(i + 1).drop_last() =~= fv.take(i as int));
            assert(fv.take(i + 1).last() == fv[i as int]);
            let key = fields[i].key.as_str();
            let v = &fields[i].value;
            assert(fv[i as int] == fields@[i as int]@);
            let mut failure: Option<DecodeError> = None;
            if str_eq(key, "resourceid") {
                if resourceid.is_some() {
                    failure = Some(DecodeError::DuplicateField(FieldName::ResourceId));
                } else {
                    match de_i64_from_str_or_num(v) {
                        Ok(x) => {
                            resourceid = Some(x);
                        },
                        Err(_) => {
                            failure = Some(DecodeError::InvalidValue(FieldName::ResourceId));
                        },
                    }
                }
            } else if str_eq(key, "details") {
                match v {
                    JsonField::Str(raw) => {
                        if details.is_some() {
                            failure = Some(DecodeError::DuplicateField(FieldName::Details));
                        } else {
                            match AuditDetails::decode(raw.as_str(), &fields[i].string_arrays) {
                                Ok(d) => {
                                    details = Some(d);
                                },
                                Err(_) => {
                                    failure = Some(DecodeError::InvalidValue(FieldName::Details));
                                },
                            }
                        }
                    },
                    _ => {
                        failure = Some(DecodeError::InvalidValue(FieldName::Details));
                    },
                }
            } else if str_eq(key, "action") {
                if action.is_some() {
                    failure = Some(DecodeError::DuplicateField(FieldName::Action));
                } else {
                    match AuditAction::from_json(v) {
                        Some(a) => {
                            action = Some(a);
                        },
                        None => {
                            failure = Some(DecodeError::InvalidValue(FieldName::Action));
                        },
                    }
                }
            } else if str_eq(key, "clock") {
                if clock.is_some() {
                    failure = Some(DecodeError::DuplicateField(FieldName::Clock));
                } else {
                    match de_i64_from_str_or_num(v) {
                        Ok(x) => {
                            clock = Some(x);
                        },
                        Err(_) => {
                            failure = Some(DecodeError::InvalidValue(FieldName::Clock));
                        },
                    }
                }
            } else if str_eq(key, "resourcename") {
                if resourcename.is_some() {
                    failure = Some(DecodeError::DuplicateField(FieldName::ResourceName));
                } else {
                    match v {
                        JsonField::Str(name) => {
                            resourcename = Some(name.clone());
                        },
                        _ => {
                            failure = Some(DecodeError::InvalidValue(FieldName::ResourceName));
                        },
                    }
                }
            }
            if let Some(e) = failure {
                proof {
                    lemma_scan_failure_sticks(fv, i + 1, e);
                }
                return Err(e);
            }
            i = i + 1;
        }
        assert(fv.take(n as int) =~= fv);
        let resourceid = match resourceid {
            Some(x) => x,
            None => {
                return Err(DecodeError::MissingField(FieldName::ResourceId));
            },
        };
        let details = match details {
            Some(d) => d,
            None => {
                return Err(DecodeError::MissingField(FieldName::Details));
            },
        };
        let action = match action {
            Some(a) => a,
            None => {
                return Err(DecodeError::MissingField(FieldName::Action));
            },
        };
        let clock = match clock {
            Some(c) => c,
            None => 0,
        };
        let resourcename = match resourcename {
            Some(name) => name,
            None => String::new(),
        };
        Ok(ZbxAuditLog { resourceid, details, action, clock, resourcename })
    }
}

/// The views of a list decoding result.
pub open spec fn logs_result_view(r: Result<Vec<ZbxAuditLog>, DecodeError>) -> Result<Seq<AuditLogView>, DecodeError> {
    match r {
        Ok(v) => Ok(v@.map_values(|l: ZbxAuditLog| l@)),
        Err(e) => Err(e),
    }
}

proof fn lemma_logs_failure_sticks(l: Seq<Seq<JsonMemberView>>, k: int, e: DecodeError)
    requires
        0 <= k <= l.len(),
        audit_logs_of(l.take(k)) == Err::<Seq<AuditLogView>, DecodeError>(e),
    ensures
        audit_logs_of(l) == Err::<Seq<AuditLogView>, DecodeError>(e),
    decreases l.len() - k,
{
    if k == l.len() {
        assert(l.take(k) =~= l);
    } else {
        assert(l.take(k + 1).drop_last() =~= l.take(k));
        lemma_logs_failure_sticks(l, k + 1, e);
    }
}

/// Decodes every audit record of a list of JSON objects, each given by its
/// members in document order.
pub fn audit_logs_from_fields(objects: &Vec<Vec<JsonMember>>) -> (r: Result<Vec<ZbxAuditLog>, DecodeError>)
    ensures
        logs_result_view(r) == audit_logs_of(objects@.map_values(|o: Vec<JsonMember>| members_view(o@))),
{
    let ghost lv = objects@.map_values(|o: Vec<JsonMember>| members_view(o@));
    let mut logs: Vec<ZbxAuditLog> = Vec::new();
    let n = objects.len();
    let mut i: usize = 0;
    assert(lv.take(0) =~= Seq::<Seq<JsonMemberView>>::empty());
    assert(logs@.map_values(|l: ZbxAuditLog| l@) =~= Seq::<AuditLogView>::empty());
    while i < n
        invariant
            i <= n,
            n == objects@.len(),
            lv == objects@.map_values(|o: Vec<JsonMember>| members_view(o@)),
            audit_logs_of(lv.take(i as int)) == Ok::<Seq<AuditLogView>, DecodeError>(
                logs@.map_values(|l: ZbxAuditLog| l@),
            ),
        decreases n - i,
    {
        assert(lv.take(i + 1).drop_last() =~= lv.take(i as int));
        assert(lv.take(i + 1).last() == members_view(objects@[i as int]@));
        match ZbxAuditLog::from_fields(&objects[i]) {
            Ok(log) => {
                let ghost before = logs@;
                logs.push(log);
                assert(logs@.map_values(|l: ZbxAuditLog| l@) =~= before.map_values(
                    |l: ZbxAuditLog| l@,
                ).push(log@));
            },
            Err(e) => {
                proof {
                    lemma_logs_failure_sticks(lv, i + 1, e);
                }
                return Err(e);
            },
        }
        i = i + 1;
    }
    assert(lv.take(n as int) =~= lv);
    Ok(logs)
}

// ---------------------------------------------------------------------------
// Hosts, groups, API replies and errors
// ---------------------------------------------------------------------------

/// Whether a host is monitored.
#[derive(PartialEq, Eq, Structural, Clone, Copy, Debug)]
pub enum HostStatus {
    Enable,
    Disable,
}

/// A host as `host.get` returns it.
#[derive(Debug)]
pub struct ZbxHost {
    pub host: String,
    pub hostid: i64,
    pub status: HostStatus,
}

/// A host group as `hostgroup.get` returns it.
#[derive(Debug)]
pub struct ZbxGroup {
    pub name: String,
    pub groupid: i64,
}

/// The group that a `hostgroup.get` reply filtered by name stands for: the
/// last one it lists, `None` when it lists none.
pub fn last_group(groups: Vec<ZbxGroup>) -> (r: Option<ZbxGroup>)
    ensures
        r == if groups@.len() == 0 {
            None
        } else {
            Some(groups@.last())
        },
{
    let mut groups = groups;
    groups.pop()
}

/// The names and the ids of hosts, in the same order.
pub fn unzip_hosts(hosts: &Vec<ZbxHost>) -> (r: (Vec<String>, Vec<i64>))
    ensures
        r.0@.len() == hosts@.len(),
        r.1@.len() == hosts@.len(),
        forall|i: int| 0 <= i < hosts@.len() ==> #[trigger] r.0@[i] == hosts@[i].host && r.1@[i]
            == hosts@[i].hostid,
{
    let mut names: Vec<String> = Vec::new();
    let mut ids: Vec<i64> = Vec::new();
    let n = hosts.len();
    let mut i: usize = 0;
    while i < n
        invariant
            i <= n,
            n == hosts@.len(),
            names@.len() == i,
            ids@.len() == i,
            forall|j: int| 0 <= j < i ==> #[trigger] names@[j] == hosts@[j].host && ids@[j]
                == hosts@[j].hostid,
        decreases n - i,
    {
        let ghost old_names = names@;
        let ghost old_ids = ids@;
        names.push(hosts[i].host.clone());
        ids.push(hosts[i].hostid);
        assert forall|j: int| 0 <= j < i + 1 implies #[trigger] names@[j] == hosts@[j].host
            && ids@[j] == hosts@[j].hostid by {
            if j < i {
                assert(names@[j] == old_names[j] && ids@[j] == old_ids[j]);
            }
        }
        i = i + 1;
    }
    (names, ids)
}

/// The `error` member of a failed JSON-RPC reply.
#[derive(Debug)]
pub struct DataErrorApiZbx {
    pub code: i64,
    pub message: String,
    pub data: Option<String>,
}

/// A JSON-RPC reply of the Zabbix API: a result, or an error.
#[derive(Debug)]
pub enum ZbxResponse<T> {
    Success { jsonrpc: String, result: T, id: i64 },
    Failure { jsonrpc: String, error: DataErrorApiZbx, id: i64 },
}

/// The kind of a Zabbix API error, by its JSON-RPC code.
#[derive(PartialEq, Eq, Structural, Clone, Copy, Debug)]
pub enum ZbxErrorKind {
    InvalidParams,
    MethodNotFound,
    InvalidRequest,
    ApplicationError,
    Unknown(i64),
}

/// The kind of error that a JSON-RPC code stands for.
pub open spec fn error_kind_of_code(code: i64) -> ZbxErrorKind {
    if code == -32600 {
        ZbxErrorKind::InvalidRequest
    } else if code == -32601 {
        ZbxErrorKind::MethodNotFound
    } else if code == -32602 {
        ZbxErrorKind::InvalidParams
    } else if code == -32500 {
        ZbxErrorKind::ApplicationError
    } else {
        ZbxErrorKind::Unknown(code)
    }
}

impl From<i64> for ZbxErrorKind {
    fn from(code: i64) -> (r: Self) {
        match code {
            -32600 => ZbxErrorKind::InvalidRequest,
            -32601 => ZbxErrorKind::MethodNotFound,
            -32602 => ZbxErrorKind::InvalidParams,
            -32500 => ZbxErrorKind::ApplicationError,
            other => ZbxErrorKind::Unknown(other),
        }
    }
}

impl FromSpecImpl<i64> for ZbxErrorKind {
    open spec fn obeys_from_spec() -> bool {
        true
    }

    open spec fn from_spec(v: i64) -> Self {
        error_kind_of_code(v)
    }
}

impl ZbxErrorKind {
    /// What the error kind means, in words (without the code of an unknown kind).
    pub fn description(&self) -> (r: &'static str)
        ensures
            r@ == match *self {
                ZbxErrorKind::InvalidParams => "invalid params"@,
                ZbxErrorKind::MethodNotFound => "method not found"@,
                ZbxErrorKind::InvalidRequest => "invalid request"@,
                ZbxErrorKind::ApplicationError => "application error (auth/permissions)"@,
                ZbxErrorKind::Unknown(_) => "unknown error code"@,
            },
    {
        match self {
            ZbxErrorKind::InvalidParams => "invalid params",
            ZbxErrorKind::MethodNotFound => "method not found",
            ZbxErrorKind::InvalidRequest => "invalid request",
            ZbxErrorKind::ApplicationError => "application error (auth/permissions)",
            ZbxErrorKind::Unknown(_) => "unknown error code",
        }
    }
}

#[verifier::external_type_specification]
#[verifier::external_body]
pub struct ExReqwestError(reqwest::Error);

/// Why a call of the Zabbix API failed: the HTTP request itself, or an
/// error that the API reported.
#[derive(Debug)]
pub enum ZbxError {
    Request(reqwest::Error),
    Api { kind: ZbxErrorKind, message: String, data: Option<String> },
}

impl<T> ZbxResponse<T> {
    /// The result of a successful reply, or the error of a failed one.
    pub fn into_result(self) -> (r: Result<T, ZbxError>)
        ensures
            match self {
                ZbxResponse::Success { result, .. } => r == Ok::<T, ZbxError>(result),
                ZbxResponse::Failure { error, .. } => r == Err::<T, ZbxError>(
                    ZbxError::Api {
                        kind: error_kind_of_code(error.code),
                        message: error.message,
                        data: error.data,
                    },
                ),
            },
    {
        match self {
            ZbxResponse::Success { result, .. } => Ok(result),
            ZbxResponse::Failure { error: DataErrorApiZbx { code, message, data }, .. } => Err(
                ZbxError::Api { kind: ZbxErrorKind::from(code), message, data },
            ),
        }
    }
}

// ---------------------------------------------------------------------------
// Resource types of the audit log
// ---------------------------------------------------------------------------

/// The kind of resource an audit record is about.
#[derive(PartialEq, Eq, Structural, Clone, Copy, Debug)]
pub enum ZbxApiResourceType {
    User,
    Host,
    Action,
    UserGroup,
    Trigger,
    HostGroup,
    Item,
    Proxy,
    Template,
}

/// Zabbix's number for a resource type.
pub open spec fn resource_type_code(t: ZbxApiResourceType) -> u64 {
    match t {
        ZbxApiResourceType::User => 0,
        ZbxApiResourceType::Host => 4,
        ZbxApiResourceType::Action => 5,
        ZbxApiResourceType::UserGroup => 11,
        ZbxApiResourceType::Trigger => 13,
        ZbxApiResourceType::HostGroup => 14,
        ZbxApiResourceType::Item => 15,
        ZbxApiResourceType::Proxy => 26,
        ZbxApiResourceType::Template => 30,
    }
}

/// The text a resource type is sent as: its number, in decimal.
pub open spec fn resource_type_text(t: ZbxApiResourceType) -> Seq<char> {
    match t {
        ZbxApiResourceType::User => "0"@,
        ZbxApiResourceType::Host => "4"@,
        ZbxApiResourceType::Action => "5"@,
        ZbxApiResourceType::UserGroup => "11"@,
        ZbxApiResourceType::Trigger => "13"@,
        ZbxApiResourceType::HostGroup => "14"@,
        ZbxApiResourceType::Item => "15"@,
        ZbxApiResourceType::Proxy => "26"@,
        ZbxApiResourceType::Template => "30"@,
    }
}

/// The resource type that Zabbix numbers `n`, if any.
pub open spec fn resource_type_of_code(n: u64) -> Option<ZbxApiResourceType> {
    if n == 0 {
        Some(ZbxApiResourceType::User)
    } else if n == 4 {
        Some(ZbxApiResourceType::Host)
    } else if n == 5 {
        Some(ZbxApiResourceType::Action)
    } else if n == 11 {
        Some(ZbxApiResourceType::UserGroup)
    } else if n == 13 {
        Some(ZbxApiResourceType::Trigger)
    } else if n == 14 {
        Some(ZbxApiResourceType::HostGroup)
    } else if n == 15 {
        Some(ZbxApiResourceType::Item)
    } else if n == 26 {
        Some(ZbxApiResourceType::Proxy)
    } else if n == 30 {
        Some(ZbxApiResourceType::Template)
    } else {
        None
    }
}

/// The resource type that a JSON value names: a number, or a string holding
/// one (read as `u64`).
pub open spec fn resource_type_of(v: JsonFieldView) -> Option<ZbxApiResourceType> {
    match v {
        JsonFieldView::Str(s) => match spec_parse_u64(s) {
            Some(n) => resource_type_of_code(n),
            None => None,
        },
        JsonFieldView::Num(t) => match spec_parse_u64(t) {
            Some(n) => resource_type_of_code(n),
            None => None,
        },
        JsonFieldView::Other => None,
    }
}

impl ZbxApiResourceType {
    /// The text this resource type is sent as.
    pub fn code_text(&self) -> (r: &'static str)
        ensures
            r@ == resource_type_text(*self),
    {
        match self {
            ZbxApiResourceType::User => "0",
            ZbxApiResourceType::Host => "4",
            ZbxApiResourceType::Action => "5",
            ZbxApiResourceType::UserGroup => "11",
            ZbxApiResourceType::Trigger => "13",
            ZbxApiResourceType::HostGroup => "14",
            ZbxApiResourceType::Item => "15",
            ZbxApiResourceType::Proxy => "26",
            ZbxApiResourceType::Template => "30",
        }
    }

    /// The resource type that Zabbix numbers `n`, if any.
    pub fn from_code(n: u64) -> (r: Option<Self>)
        ensures
            r == resource_type_of_code(n),
    {
        match n {
            0 => Some(ZbxApiResourceType::User),
            4 => Some(ZbxApiResourceType::Host),
            5 => Some(ZbxApiResourceType::Action),
            11 => Some(ZbxApiResourceType::UserGroup),
            13 => Some(ZbxApiResourceType::Trigger),
            14 => Some(ZbxApiResourceType::HostGroup),
            15 => Some(ZbxApiResourceType::Item),
            26 => Some(ZbxApiResourceType::Proxy),
            30 => Some(ZbxApiResourceType::Template),
            _ => None,
        }
    }

    /// Reads a resource type from a JSON number or a string holding one.
    pub fn from_json(v: &JsonField) -> (r: Option<Self>)
        ensures
            r == resource_type_of(v@),
    {
        let t = match v {
            JsonField::Str(s) => s.as_str(),
            JsonField::Num(t) => t.as_str(),
            JsonField::Other => {
                return None;
            },
        };
        match parse_u64(t) {
            Some(n) => ZbxApiResourceType::from_code(n),
            None => None,
        }
    }
}

/// Whether a field name is one that an audit record reads.
pub open spec fn is_audit_field(key: Seq<char>) -> bool {
    key == "resourceid"@ || key == "details"@ || key == "action"@ || key == "clock"@ || key
        == "resourcename"@
}

/// Fields that an audit record does not read change nothing, wherever they stand.
pub proof fn lemma_unknown_fields_ignored(fields: Seq<JsonMemberView>, m: JsonMemberView)
    requires
        !is_audit_field(m.key),
    ensures
        audit_scan(fields.push(m)) == audit_scan(fields),
        audit_log_of(fields.push(m)) == audit_log_of(fields),
{
    assert(fields.push(m).drop_last() =~= fields);
}

proof fn lemma_scan_without_key(fields: Seq<JsonMemberView>, key: Seq<char>)
    requires
        forall|i: int| 0 <= i < fields.len() ==> #[trigger] fields[i].key != key,
    ensures
        audit_scan(fields) matches Ok(st) ==> {
            &&& key == "resourceid"@ ==> st.resourceid is None
            &&& key == "details"@ ==> st.details is None
            &&& key == "action"@ ==> st.action is None
            &&& key == "clock"@ ==> st.clock is None
            &&& key == "resourcename"@ ==> st.resourcename is None
        },
    decreases fields.len(),
{
    if fields.len() > 0 {
        let t = fields.drop_last();
        assert forall|i: int| 0 <= i < t.len() implies #[trigger] t[i].key != key by {
            assert(t[i] == fields[i]);
        }
        lemma_scan_without_key(t, key);
        assert(fields.last().key != key);
    }
}

/// A record without `resourceid`, without `details` or without `action` is
/// refused, whatever else it holds.
pub proof fn lemma_required_fields(fields: Seq<JsonMemberView>, key: Seq<char>)
    requires
        key == "resourceid"@ || key == "details"@ || key == "action"@,
        forall|i: int| 0 <= i < fields.len() ==> #[trigger] fields[i].key != key,
    ensures
        audit_log_of(fields) is Err,
{
    lemma_scan_without_key(fields, key);
}

/// Whether the field named `key` has been read into `st`.
pub open spec fn field_is_read(st: AuditScan, key: Seq<char>) -> bool {
    &&& key == "resourceid"@ ==> st.resourceid is Some
    &&& key == "details"@ ==> st.details is Some
    &&& key == "action"@ ==> st.action is Some
    &&& key == "clock"@ ==> st.clock is Some
    &&& key == "resourcename"@ ==> st.resourcename is Some
}

proof fn lemma_audit_fields_distinct()
    ensures
        "resourceid"@ != "details"@,
        "resourceid"@ != "action"@,
        "resourceid"@ != "clock"@,
        "resourceid"@ != "resourcename"@,
        "details"@ != "action"@,
        "details"@ != "clock"@,
        "details"@ != "resourcename"@,
        "action"@ != "clock"@,
        "action"@ != "resourcename"@,
        "clock"@ != "resourcename"@,
{
    reveal_strlit("resourceid");
    reveal_strlit("details");
    reveal_strlit("action");
    reveal_strlit("clock");
    reveal_strlit("resourcename");
    assert("resourceid"@.len() == 10);
    assert("details"@.len() == 7);
    assert("action"@.len() == 6);
    assert("clock"@.len() == 5);
    assert("resourcename"@.len() == 12);
}

proof fn lemma_scan_keeps_field(fields: Seq<JsonMemberView>, i: int, k: int)
    requires
        0 <= i < k <= fields.len(),
        is_audit_field(fields[i].key),
    ensures
        audit_scan(fields.take(k)) matches Ok(st) ==> field_is_read(st, fields[i].key),
    decreases k,
{
    lemma_audit_fields_distinct();
    let t = fields.take(k);
    assert(t.drop_last() =~= fields.take(k - 1));
    assert(t.last() == fields[k - 1]);
    if k - 1 > i {
        lemma_scan_keeps_field(fields, i, k - 1);
    }
}

/// A field that an audit record reads may stand only once in its object:
/// a second `resourceid`, `details`, `action`, `clock` or `resourcename`
/// makes the record fail, even where both values are valid and equal.
pub proof fn lemma_repeated_field_refused(fields: Seq<JsonMemberView>, i: int, j: int)
    requires
        0 <= i < j < fields.len(),
        fields[i].key == fields[j].key,
        is_audit_field(fields[i].key),
    ensures
        audit_scan(fields) is Err,
        audit_log_of(fields) is Err,
{
    lemma_audit_fields_distinct();
    lemma_scan_keeps_field(fields, i, j);
    let t = fields.take(j + 1);
    assert(t.drop_last() =~= fields.take(j));
    assert(t.last() == fields[j]);
    assert(audit_scan(t) is Err);
    lemma_scan_failure_sticks(fields, j + 1, audit_scan(t)->Err_0);
}

/// Whether the fields read into `st` hold what member `m` says.
pub open spec fn scan_holds(st: AuditScan, m: JsonMemberView) -> bool {
    &&& m.key == "resourceid"@ ==> flexible_i64(m.value) is Some && st.resourceid == flexible_i64(m.value)
    &&& m.key == "action"@ ==> audit_action_of(m.value) is Some && st.action == audit_action_of(m.value)
    &&& m.key == "clock"@ ==> flexible_i64(m.value) is Some && st.clock == flexible_i64(m.value)
    &&& m.key == "resourcename"@ ==> m.value is Str && st.resourcename == Some(m.value->Str_0)
    &&& m.key == "details"@ ==> {
        &&& m.value is Str
        &&& details_of_string(m.value->Str_0, m.string_arrays) is Ok
        &&& st.details == Some(details_of_string(m.value->Str_0, m.string_arrays)->Ok_0)
    }
}

proof fn lemma_scan_keeps_value(fields: Seq<JsonMemberView>, i: int, k: int)
    requires
        0 <= i < k <= fields.len(),
        is_audit_field(fields[i].key),
    ensures
        audit_scan(fields.take(k)) matches Ok(st) ==> scan_holds(st, fields[i]),
    decreases k,
{
    lemma_audit_fields_distinct();
    let t = fields.take(k);
    assert(t.drop_last() =~= fields.take(k - 1));
    assert(t.last() == fields[k - 1]);
    if k - 1 > i {
        lemma_scan_keeps_value(fields, i, k - 1);
        lemma_scan_keeps_field(fields, i, k - 1);
    }
}

/// A decoded audit record holds what its object says: the `resourceid`
/// and `clock` read as integers (from a number or a string), the `action`
/// it names, the `resourcename` text unchanged, and the changes that its
/// `details` string describes.
pub proof fn lemma_record_holds_members(fields: Seq<JsonMemberView>, i: int)
    requires
        0 <= i < fields.len(),
        audit_log_of(fields) is Ok,
    ensures
        ({
            let log = audit_log_of(fields)->Ok_0;
            let m = fields[i];
            &&& m.key == "resourceid"@ ==> flexible_i64(m.value) == Some(log.resourceid)
            &&& m.key == "action"@ ==> audit_action_of(m.value) == Some(log.action)
            &&& m.key == "clock"@ ==> flexible_i64(m.value) == Some(log.clock)
            &&& m.key == "resourcename"@ ==> m.value == JsonFieldView::Str(log.resourcename)
            &&& m.key == "details"@ ==> m.value is Str && details_of_string(
                m.value->Str_0,
                m.string_arrays,
            ) == Ok::<Map<Seq<char>, ResourceOpView>, DecodeError>(log.details)
        }),
{
    if is_audit_field(fields[i].key) {
        lemma_scan_keeps_value(fields, i, fields.len() as int);
        assert(fields.take(fields.len() as int) =~= fields);
    }
}

/// A record whose object has no `clock` has clock 0, and one with no
/// `resourcename` has the empty name.
pub proof fn lemma_record_defaults(fields: Seq<JsonMemberView>)
    requires
        audit_log_of(fields) is Ok,
    ensures
        (forall|i: int| 0 <= i < fields.len() ==> #[trigger] fields[i].key != "clock"@) ==> audit_log_of(
            fields,
        )->Ok_0.clock == 0,
        (forall|i: int| 0 <= i < fields.len() ==> #[trigger] fields[i].key != "resourcename"@)
            ==> audit_log_of(fields)->Ok_0.resourcename == Seq::<char>::empty(),
{
    if forall|i: int| 0 <= i < fields.len() ==> #[trigger] fields[i].key != "clock"@ {
        lemma_scan_without_key(fields, "clock"@);
    }
    if forall|i: int| 0 <= i < fields.len() ==> #[trigger] fields[i].key != "resourcename"@ {
        lemma_scan_without_key(fields, "resourcename"@);
    }
}

/// Every operation of a `details` object must decode, those of a repeated
/// property included; where all do, the properties are those the entries
/// name, and each maps to the operation of its last entry.
pub proof fn lemma_details_entries(es: Seq<(Seq<char>, Seq<Seq<char>>)>)
    ensures
        details_of_entries(es) is Ok <==> (forall|i: int|
            0 <= i < es.len() ==> #[trigger] resource_op_of(es[i].1) is Ok),
        details_of_entries(es) matches Ok(m) ==> forall|k: Seq<char>|
            #[trigger] m.contains_key(k) <==> exists|i: int| 0 <= i < es.len() && es[i].0 == k,
        details_of_entries(es) matches Ok(m) ==> forall|i: int|
            0 <= i < es.len() && (forall|j: int| i < j < es.len() ==> es[j].0 != es[i].0) ==> m[#[trigger] es[i].0]
                == resource_op_of(es[i].1)->Ok_0,
    decreases es.len(),
{
    if es.len() > 0 {
        let t = es.drop_last();
        lemma_details_entries(t);
        let n = es.len() - 1;
        assert forall|i: int| 0 <= i < t.len() implies t[i] == es[i] by {}
        if details_of_entries(es) is Ok {
            let m = details_of_entries(es)->Ok_0;
            let mt = details_of_entries(t)->Ok_0;
            assert forall|k: Seq<char>| #[trigger] m.contains_key(k) implies exists|i: int|
                0 <= i < es.len() && es[i].0 == k by {
                if k != es[n].0 {
                    let i = choose|i: int| 0 <= i < t.len() && t[i].0 == k;
                    assert(es[i].0 == k);
                }
            }
            assert forall|k: Seq<char>| (exists|i: int| 0 <= i < es.len() && es[i].0 == k) implies #[trigger] m.contains_key(k) by {
                let i = choose|i: int| 0 <= i < es.len() && es[i].0 == k;
                if i < n {
                    assert(t[i].0 == k);
                }
            }
            assert forall|i: int|
                0 <= i < es.len() && (forall|j: int| i < j < es.len() ==> es[j].0 != es[i].0) implies m[#[trigger] es[i].0]
                == resource_op_of(es[i].1)->Ok_0 by {
                if i < n {
                    assert(es[n].0 != es[i].0);
                    assert forall|j: int| i < j < t.len() implies t[j].0 != t[i].0 by {
                        assert(es[j].0 != es[i].0);
                    }
                }
            }
        } else {
            if details_of_entries(t) is Ok {
                assert(resource_op_of(es[n].1) is Err);
            } else {
                let i = choose|i: int| 0 <= i < t.len() && !(resource_op_of(t[i].1) is Ok);
                assert(resource_op_of(es[i].1) is Err);
            }
        }
    }
}

/// A resource type is read back from the number it is sent as, and from the
/// text it is sent as (serializing and then deserializing gives it back).
pub proof fn lemma_resource_type_round_trip(t: ZbxApiResourceType)
    ensures
        resource_type_of_code(resource_type_code(t)) == Some(t),
        spec_parse_u64(resource_type_text(t)) == Some(resource_type_code(t)),
        resource_type_of(JsonFieldView::Str(resource_type_text(t))) == Some(t),
{
    let s = resource_type_text(t);
    reveal_strlit("0");
    reveal_strlit("4");
    reveal_strlit("5");
    reveal_strlit("11");
    reveal_strlit("13");
    reveal_strlit("14");
    reveal_strlit("15");
    reveal_strlit("26");
    reveal_strlit("30");
    assert(all_digits(s));
    lemma_short_decimal(s);
}

/// An audit action is read from its number whether the number comes as a
/// JSON string or as a JSON number, and nothing but `0`, `1` and `2` names one.
pub proof fn lemma_audit_action_forms(t: Seq<char>)
    ensures
        audit_action_of(JsonFieldView::Str(t)) == audit_action_of(JsonFieldView::Num(t)),
        audit_action_of(JsonFieldView::Str(t)) is Some <==> (t == "0"@ || t == "1"@ || t == "2"@),
        audit_action_of(JsonFieldView::Other) is None,
{
}

} // verus!
