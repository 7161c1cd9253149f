use vstd::prelude::*;
use vstd::std_specs::convert::{FromSpecImpl, TryFromSpecImpl};

use crate::text::str_eq;

verus! {

/// A problem as it is stored: the problem event, where it happened, how bad
/// it is, and when it started and (if it did) ended.
#[derive(Debug)]
pub struct Event {
    pub eventid: i64,
    pub nodo: String,
    pub severity: Severity,
    pub trigger: String,
    pub start_time: i64,
    pub opdata: String,
    pub end_time: Option<i64>,
    pub status: Status,
}

/// Whether a problem is still open or has been closed by a recovery event.
#[derive(PartialEq, Eq, Structural, Clone, Copy, Debug)]
pub enum Status {
    Resolved,
    Ongoing,
}

/// The text under which a status is shown and read back.
pub open spec fn status_label(s: Status) -> Seq<char> {
    match s {
        Status::Resolved => "RESOLVED"@,
        Status::Ongoing => "ONGOING"@,
    }
}

/// The status that a text names, if any.
pub open spec fn status_from_label(t: Seq<char>) -> Option<Status> {
    if t == "RESOLVED"@ {
        Some(Status::Resolved)
    } else if t == "ONGOING"@ {
        Some(Status::Ongoing)
    } else {
        None
    }
}

impl Status {
    /// The display text of the status.
    pub fn label(&self) -> (r: &'static str)
        ensures
            r@ == status_label(*self),
    {
        match self {
            Status::Resolved => "RESOLVED",
            Status::Ongoing => "ONGOING",
        }
    }
}

impl<'a> TryFrom<&'a str> for Status {
    type Error = ();

    fn try_from(value: &'a str) -> (r: Result<Self, Self::Error>) {
        if str_eq(value, "RESOLVED") {
            Ok(Status::Resolved)
        } else if str_eq(value, "ONGOING") {
            Ok(Status::Ongoing)
        } else {
            Err(())
        }
    }
}

impl<'a> TryFromSpecImpl<&'a str> for Status {
    open spec fn obeys_try_from_spec() -> bool {
        true
    }

    open spec fn try_from_spec(v: &'a str) -> Result<Self, Self::Error> {
        match status_from_label(v@) {
            Some(s) => Ok(s),
            None => Err(()),
        }
    }
}

/// Severity of a Zabbix trigger.
#[derive(PartialEq, Eq, Structural, Clone, Copy, Debug)]
pub enum Severity {
    Warning,
    Information,
    Average,
    High,
    Disaster,
    NotClassifier,
}

/// The text under which a severity is shown and read back.
pub open spec fn severity_label(s: Severity) -> Seq<char> {
    match s {
        Severity::Warning => "warning"@,
        Severity::Information => "information"@,
        Severity::Average => "average"@,
        Severity::High => "high"@,
        Severity::Disaster => "disaster"@,
        Severity::NotClassifier => "notClassifier"@,
    }
}

/// The severity that a text names, if any.
pub open spec fn severity_from_label(t: Seq<char>) -> Option<Severity> {
    if t == "warning"@ {
        Some(Severity::Warning)
    } else if t == "information"@ {
        Some(Severity::Information)
    } else if t == "average"@ {
        Some(Severity::Average)
    } else if t == "high"@ {
        Some(Severity::High)
    } else if t == "disaster"@ {
        Some(Severity::Disaster)
    } else if t == "notClassifier"@ {
        Some(Severity::NotClassifier)
    } else {
        None
    }
}

/// Zabbix's number for a severity.
pub open spec fn severity_number(s: Severity) -> i32 {
    match s {
        Severity::NotClassifier => 0,
        Severity::Information => 1,
        Severity::Warning => 2,
        Severity::Average => 3,
        Severity::High => 4,
        Severity::Disaster => 5,
    }
}

/// The severity that Zabbix numbers `n`; numbers outside `0..6` name none.
pub open spec fn severity_of_number(n: i32) -> Option<Severity> {
    if n == 0 {
        Some(Severity::NotClassifier)
    } else if n == 1 {
        Some(Severity::Information)
    } else if n == 2 {
        Some(Severity::Warning)
    } else if n == 3 {
        Some(Severity::Average)
    } else if n == 4 {
        Some(Severity::High)
    } else if n == 5 {
        Some(Severity::Disaster)
    } else {
        None
    }
}

impl Severity {
    /// The display text of the severity.
    pub fn label(&self) -> (r: &'static str)
        ensures
            r@ == severity_label(*self),
    {
        match self {
            Severity::Warning => "warning",
            Severity::Information => "information",
            Severity::Average => "average",
            Severity::High => "high",
            Severity::Disaster => "disaster",
            Severity::NotClassifier => "notClassifier",
        }
    }

    /// Zabbix's number for this severity, from 0 (not classified) to 5 (disaster).
    pub fn to_number(self) -> (r: i32)
        ensures
            r == severity_number(self),
    {
        match self {
            Severity::NotClassifier => 0,
            Severity::Information => 1,
            Severity::Warning => 2,
            Severity::Average => 3,
            Severity::High => 4,
            Severity::Disaster => 5,
        }
    }

    /// The severity that Zabbix numbers `severity`; `None` outside `0..6`.
    pub fn from_number(severity: i32) -> (r: Option<Self>)
        ensures
            r == severity_of_number(severity),
    {
        if 0 <= severity && severity < 6 {
            Some(
                match severity {
                    1 => Severity::Information,
                    2 => Severity::Warning,
                    3 => Severity::Average,
                    4 => Severity::High,
                    5 => Severity::Disaster,
                    _ => Severity::NotClassifier,
                },
            )
        } else {
            None
        }
    }
}

impl<'a> TryFrom<&'a str> for Severity {
    type Error = ();

    fn try_from(value: &'a str) -> (r: Result<Self, Self::Error>) {
        if str_eq(value, "warning") {
            Ok(Severity::Warning)
        } else if str_eq(value, "information") {
            Ok(Severity::Information)
        } else if str_eq(value, "average") {
            Ok(Severity::Average)
        } else if str_eq(value, "high") {
            Ok(Severity::High)
        } else if str_eq(value, "disaster") {
            Ok(Severity::Disaster)
        } else if str_eq(value, "notClassifier") {
            Ok(Severity::NotClassifier)
        } else {
            Err(())
        }
    }
}

impl<'a> TryFromSpecImpl<&'a str> for Severity {
    open spec fn obeys_try_from_spec() -> bool {
        true
    }

    open spec fn try_from_spec(v: &'a str) -> Result<Self, Self::Error> {
        match severity_from_label(v@) {
            Some(s) => Ok(s),
            None => Err(()),
        }
    }
}

impl From<Severity> for String {
    fn from(value: Severity) -> (r: String)
        ensures
            r@ == severity_label(value),
    {
        String::from_str(value.label())
    }
}

/// A `String` cannot be built in specifications, so what the conversion gives
/// is stated by the `ensures` of `from` above (the severity's label), not here.
impl FromSpecImpl<Severity> for String {
    open spec fn obeys_from_spec() -> bool {
        false
    }

    open spec fn from_spec(v: Severity) -> String {
        arbitrary()
    }
}

/// Every severity survives a trip through its number, and every number in
/// `0..6` through its severity; no other number names a severity.
pub proof fn lemma_severity_number_round_trip(s: Severity, n: i32)
    ensures
        severity_of_number(severity_number(s)) == Some(s),
        0 <= n < 6 <==> severity_of_number(n) is Some,
        severity_of_number(n) matches Some(t) ==> severity_number(t) == n,
{
}

/// Every status and every severity is read back from its display text.
pub proof fn lemma_label_round_trip(s: Status, v: Severity)
    ensures
        status_from_label(status_label(s)) == Some(s),
        severity_from_label(severity_label(v)) == Some(v),
{
    reveal_strlit("RESOLVED");
    reveal_strlit("ONGOING");
    reveal_strlit("warning");
    reveal_strlit("information");
    reveal_strlit("average");
    reveal_strlit("high");
    reveal_strlit("disaster");
    reveal_strlit("notClassifier");
    assert("RESOLVED"@[0] != "ONGOING"@[0]);
    assert("warning"@[0] != "information"@[0]);
    assert("warning"@[0] != "average"@[0]);
    assert("warning"@[0] != "high"@[0]);
    assert("warning"@[0] != "disaster"@[0]);
    assert("warning"@[0] != "notClassifier"@[0]);
    assert("information"@[0] != "average"@[0]);
    assert("information"@[0] != "high"@[0]);
    assert("information"@[0] != "disaster"@[0]);
    assert("information"@[0] != "notClassifier"@[0]);
    assert("average"@[0] != "high"@[0]);
    assert("average"@[0] != "disaster"@[0]);
    assert("average"@[0] != "notClassifier"@[0]);
    assert("high"@[0] != "disaster"@[0]);
    assert("high"@[0] != "notClassifier"@[0]);
    assert("disaster"@[0] != "notClassifier"@[0]);
}

/// The name under which this crate shows and stores the severity that
/// Zabbix numbers `n`: Zabbix's own name for that level in lower camel case
/// (0 not classified, 1 information, 2 warning, 3 average, 4 high,
/// 5 disaster); `None` for a number that names no level.
pub open spec fn zabbix_severity_name(n: int) -> Option<Seq<char>> {
    if n == 0 {
        Some("notClassifier"@)
    } else if n == 1 {
        Some("information"@)
    } else if n == 2 {
        Some("warning"@)
    } else if n == 3 {
        Some("average"@)
    } else if n == 4 {
        Some("high"@)
    } else if n == 5 {
        Some("disaster"@)
    } else {
        None
    }
}

/// Each severity is shown under the name of its own Zabbix level (the
/// level of its number), and each level's name is read back as the
/// severity of that number; so no two severities trade names.
pub proof fn lemma_severity_names(s: Severity, n: int)
    ensures
        zabbix_severity_name(severity_number(s) as int) == Some(severity_label(s)),
        0 <= n < 6 ==> zabbix_severity_name(n) is Some && severity_from_label(zabbix_severity_name(n)->0)
            == severity_of_number(n as i32),
{
    lemma_label_round_trip(Status::Resolved, s);
    lemma_label_round_trip(Status::Resolved, Severity::Warning);
    lemma_label_round_trip(Status::Resolved, Severity::Information);
    lemma_label_round_trip(Status::Resolved, Severity::Average);
    lemma_label_round_trip(Status::Resolved, Severity::High);
    lemma_label_round_trip(Status::Resolved, Severity::Disaster);
    lemma_label_round_trip(Status::Resolved, Severity::NotClassifier);
}

/// Each status is shown as the state of its problem: `RESOLVED` exactly
/// when it is the status of a closed problem, `ONGOING` exactly when it is
/// that of an open one, and each text is read back as that status.
pub proof fn lemma_status_names(s: Status)
    ensures
        status_label(s) == "RESOLVED"@ <==> s == Status::Resolved,
        status_label(s) == "ONGOING"@ <==> s == Status::Ongoing,
        status_from_label("RESOLVED"@) == Some(Status::Resolved),
        status_from_label("ONGOING"@) == Some(Status::Ongoing),
{
    lemma_label_round_trip(Status::Resolved, Severity::Warning);
    lemma_label_round_trip(Status::Ongoing, Severity::Warning);
}

/// A point in time, in seconds since the Unix epoch.
#[derive(Debug, Clone, Copy)]
pub struct Timestamp(pub i64);

impl Timestamp {
    pub fn set(&mut self, n: i64)
        ensures
            final(self).0 == n,
    {
        self.0 = n;
    }

    pub fn get(&self) -> (r: i64)
        ensures
            r == self.0,
    {
        self.0
    }

    pub fn new(n: i64) -> (r: Self)
        ensures
            r.0 == n,
    {
        Self(n)
    }
}

impl std::ops::Deref for Timestamp {
    type Target = i64;

    fn deref(&self) -> (r: &i64)
        ensures
            *r == self.0,
    {
        &self.0
    }
}

/// A Zabbix event identifier.
#[derive(Debug, Clone, Copy)]
pub struct EventId(pub i64);

impl EventId {
    pub fn new(n: i64) -> (r: Self)
        ensures
            r.0 == n,
    {
        Self(n)
    }

    pub fn set(&mut self, n: i64)
        ensures
            final(self).0 == n,
    {
        self.0 = n;
    }

    pub fn get(&self) -> (r: i64)
        ensures
            r == self.0,
    {
        self.0
    }
}

impl std::ops::Deref for EventId {
    type Target = i64;

    fn deref(&self) -> (r: &i64)
        ensures
            *r == self.0,
    {
        &self.0
    }
}

} // verus!
