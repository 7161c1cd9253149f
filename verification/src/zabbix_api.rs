use vstd::prelude::*;

verus! {

/// Entry point for requests to the Zabbix API.
pub struct ZbxApi;

/// The parameters of an `event.get` request, set one by one before sending.
pub struct ZbxApiEvents {
    pub hostids: Option<Vec<i64>>,
    pub from: Option<i64>,
    pub eventid: Option<i64>,
    pub until: Option<i64>,
    pub asc: bool,
    pub limit: usize,
}

/// The parameters of an `event.get` request, as values.
pub struct EventsView {
    pub hostids: Option<Seq<i64>>,
    pub from: Option<i64>,
    pub eventid: Option<i64>,
    pub until: Option<i64>,
    pub asc: bool,
    pub limit: usize,
}

impl View for ZbxApiEvents {
    type V = EventsView;

    open spec fn view(&self) -> EventsView {
        EventsView {
            hostids: match self.hostids {
                Some(h) => Some(h@),
                None => None,
            },
            from: self.from,
            eventid: self.eventid,
            until: self.until,
            asc: self.asc,
            limit: self.limit,
        }
    }
}

/// The parameters of a fresh request: no filter, ascending order, 1000
/// events at most.
pub open spec fn fresh_events() -> EventsView {
    EventsView { hostids: None, from: None, eventid: None, until: None, asc: true, limit: 1000 }
}

/// One call of a setter of [`ZbxApiEvents`], with its argument.
pub enum EventsCall {
    HostIds(Seq<i64>),
    From(i64),
    Until(i64),
    EventId(i64),
    Limit(usize),
    Asc,
    Desc,
}

/// The parameters after one setter call.
pub open spec fn apply_call(v: EventsView, c: EventsCall) -> EventsView {
    match c {
        EventsCall::HostIds(h) => EventsView { hostids: Some(h), ..v },
        EventsCall::From(t) => EventsView { from: Some(t), ..v },
        EventsCall::Until(t) => EventsView { until: Some(t), ..v },
        EventsCall::EventId(e) => EventsView { eventid: Some(e), ..v },
        EventsCall::Limit(n) => EventsView { limit: n, ..v },
        EventsCall::Asc => EventsView { asc: true, ..v },
        EventsCall::Desc => EventsView { asc: false, ..v },
    }
}

/// The parameters after a sequence of setter calls, made in order.
pub open spec fn apply_calls(v: EventsView, calls: Seq<EventsCall>) -> EventsView
    decreases calls.len(),
{
    if calls.len() == 0 {
        v
    } else {
        apply_call(apply_calls(v, calls.drop_last()), calls.last())
    }
}

/// Whether a call sets the sort order.
pub open spec fn sets_order(c: EventsCall) -> bool {
    c is Asc || c is Desc
}

/// The last of `calls` for which `sets` holds; `None` when none does.
pub open spec fn last_call(calls: Seq<EventsCall>, sets: spec_fn(EventsCall) -> bool) -> Option<
    EventsCall,
>
    decreases calls.len(),
{
    if calls.len() == 0 {
        None
    } else if sets(calls.last()) {
        Some(calls.last())
    } else {
        last_call(calls.drop_last(), sets)
    }
}

/// [`last_call`] is the call at the highest position for which `sets`
/// holds, and there is none exactly when no call satisfies `sets`.
pub proof fn lemma_last_call(calls: Seq<EventsCall>, sets: spec_fn(EventsCall) -> bool)
    ensures
        last_call(calls, sets) is None <==> forall|i: int|
            0 <= i < calls.len() ==> !sets(#[trigger] calls[i]),
        forall|i: int|
            0 <= i < calls.len() && sets(#[trigger] calls[i]) && (forall|j: int|
                i < j < calls.len() ==> !sets(calls[j])) ==> last_call(calls, sets) == Some(calls[i]),
    decreases calls.len(),
{
    if calls.len() > 0 {
        let t = calls.drop_last();
        lemma_last_call(t, sets);
        assert forall|i: int| 0 <= i < t.len() implies t[i] == calls[i] by {}
        assert(calls.last() == calls[calls.len() - 1]);
    }
}

/// After any sequence of setter calls, in any order and each possibly
/// repeated, every parameter holds the value of the last call of its setter,
/// and keeps its earlier value where its setter was not called; the sort
/// order is that of the last `asc` or `desc`.
pub proof fn lemma_last_call_wins(v: EventsView, calls: Seq<EventsCall>)
    ensures
        apply_calls(v, calls).hostids == match last_call(calls, |c: EventsCall| c is HostIds) {
            Some(c) => Some(c->HostIds_0),
            None => v.hostids,
        },
        apply_calls(v, calls).from == match last_call(calls, |c: EventsCall| c is From) {
            Some(c) => Some(c->From_0),
            None => v.from,
        },
        apply_calls(v, calls).until == match last_call(calls, |c: EventsCall| c is Until) {
            Some(c) => Some(c->Until_0),
            None => v.until,
        },
        apply_calls(v, calls).eventid == match last_call(calls, |c: EventsCall| c is EventId) {
            Some(c) => Some(c->EventId_0),
            None => v.eventid,
        },
        apply_calls(v, calls).limit == match last_call(calls, |c: EventsCall| c is Limit) {
            Some(c) => c->Limit_0,
            None => v.limit,
        },
        apply_calls(v, calls).asc == match last_call(calls, |c: EventsCall| sets_order(c)) {
            Some(c) => c is Asc,
            None => v.asc,
        },
    decreases calls.len(),
{
    if calls.len() > 0 {
        lemma_last_call_wins(v, calls.drop_last());
    }
}

impl ZbxApi {
    /// A fresh `event.get` request: no filter, ascending order, 1000 events at most.
    pub fn get_events() -> (r: ZbxApiEvents)
        ensures
            r@ == fresh_events(),
    {
        ZbxApiEvents { hostids: None, from: None, eventid: None, until: None, asc: true, limit: 1000 }
    }
}

impl ZbxApiEvents {
    /// Only events of these hosts.
    pub fn hostids(&mut self, hids: Vec<i64>)
        ensures
            final(self)@ == apply_call(old(self)@, EventsCall::HostIds(hids@)),
    {
        self.hostids = Some(hids);
    }

    /// Only events up to this time.
    pub fn until(&mut self, until: i64)
        ensures
            final(self)@ == apply_call(old(self)@, EventsCall::Until(until)),
    {
        self.until = Some(until);
    }

    /// Only events from this time on.
    pub fn from(&mut self, from: i64)
        ensures
            final(self)@ == apply_call(old(self)@, EventsCall::From(from)),
    {
        self.from = Some(from);
    }

    /// Only events from this id on.
    pub fn eventid(&mut self, eventid: i64)
        ensures
            final(self)@ == apply_call(old(self)@, EventsCall::EventId(eventid)),
    {
        self.eventid = Some(eventid);
    }

    /// At most this many events.
    pub fn limit(&mut self, limit: usize)
        ensures
            final(self)@ == apply_call(old(self)@, EventsCall::Limit(limit)),
    {
        self.limit = limit;
    }

    /// Oldest events first.
    pub fn asc(&mut self)
        ensures
            final(self)@ == apply_call(old(self)@, EventsCall::Asc),
    {
        self.asc = true;
    }

    /// Newest events first.
    pub fn desc(&mut self)
        ensures
            final(self)@ == apply_call(old(self)@, EventsCall::Desc),
    {
        self.asc = false;
    }

    /// The `sortorder` the request is sent with.
    pub fn sort_order(&self) -> (r: &'static str)
        ensures
            r@ == if self.asc {
                "ASC"@
            } else {
                "DESC"@
            },
    {
        if self.asc {
            "ASC"
        } else {
            "DESC"
        }
    }

    /// The end of the time window: the one set, or `now` when none was.
    pub fn until_or(&self, now: i64) -> (r: i64)
        ensures
            r == match self.until {
                Some(u) => u,
                None => now,
            },
    {
        match self.until {
            Some(u) => u,
            None => now,
        }
    }
}

} // verus!
