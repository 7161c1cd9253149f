use std::collections::HashMap;
use std::collections::VecDeque;
use vstd::prelude::*;

use crate::json::{as_i32, as_i64, field_i32, field_i64, field_text, JsonField, JsonFieldView};
use crate::groups::GroupInfo;
use crate::models::{severity_of_number, Severity, Status};

verus! {

broadcast use vstd::std_specs::hash::group_hash_axioms;

/// How many events one page of `event.get` may hold; a full page means that
/// more events may follow.
pub const LIMIT: usize = 2000;

/// One event of an `event.get` reply, each field as it came in the JSON
/// (Zabbix sends numbers as strings). `host` is `hosts[0].host`.
pub struct RawEvent {
    pub eventid: JsonField,
    pub clock: JsonField,
    pub value: JsonField,
    pub r_eventid: JsonField,
    pub severity: JsonField,
    pub name: JsonField,
    pub opdata: JsonField,
    pub host: JsonField,
}

impl Clone for RawEvent {
    fn clone(&self) -> (r: Self)
        ensures
            r == *self,
    {
        RawEvent {
            eventid: self.eventid.clone(),
            clock: self.clock.clone(),
            value: self.value.clone(),
            r_eventid: self.r_eventid.clone(),
            severity: self.severity.clone(),
            name: self.name.clone(),
            opdata: self.opdata.clone(),
            host: self.host.clone(),
        }
    }
}

/// A problem ready to be stored: one row of the `events` table.
pub struct ProblemRow {
    pub eventid: i64,
    pub host: String,
    pub severity: Option<Severity>,
    pub trigger: String,
    pub start_time: i64,
    pub opdata: String,
    pub end_time: Option<i64>,
    pub status: Status,
}

/// The mathematical content of a [`ProblemRow`].
pub struct ProblemRowView {
    pub eventid: i64,
    pub host: Seq<char>,
    pub severity: Option<Severity>,
    pub trigger: Seq<char>,
    pub start_time: i64,
    pub opdata: Seq<char>,
    pub end_time: Option<i64>,
    pub status: Status,
}

impl View for ProblemRow {
    type V = ProblemRowView;

    open spec fn view(&self) -> ProblemRowView {
        ProblemRowView {
            eventid: self.eventid,
            host: self.host@,
            severity: self.severity,
            trigger: self.trigger@,
            start_time: self.start_time,
            opdata: self.opdata@,
            end_time: self.end_time,
            status: self.status,
        }
    }
}

/// The views of a sequence of rows.
pub open spec fn rows_view(rows: Seq<ProblemRow>) -> Seq<ProblemRowView> {
    rows.map_values(|r: ProblemRow| r@)
}

/// Whether a problem event carries everything a row needs.
pub open spec fn row_ready(ev: RawEvent) -> bool {
    &&& field_i64(ev.eventid@) is Some
    &&& field_text(ev.host@) is Some
    &&& field_i32(ev.severity@) is Some
    &&& field_text(ev.name@) is Some
    &&& field_i64(ev.clock@) is Some
    &&& field_text(ev.opdata@) is Some
}

/// The row stored for a problem event, closed at `end` if it is known.
pub open spec fn row_of(ev: RawEvent, end: Option<i64>) -> ProblemRowView {
    ProblemRowView {
        eventid: field_i64(ev.eventid@)->0,
        host: field_text(ev.host@)->0,
        severity: severity_of_number(field_i32(ev.severity@)->0),
        trigger: field_text(ev.name@)->0,
        start_time: field_i64(ev.clock@)->0,
        opdata: field_text(ev.opdata@)->0,
        end_time: end,
        status: if end is Some {
            Status::Resolved
        } else {
            Status::Ongoing
        },
    }
}

/// The outcome of pairing queued problems with known resolutions: what is
/// left queued, which resolutions are left unused, the rows produced, and
/// whether every event that was looked at was well formed.
pub struct PairingView {
    pub queue: Seq<RawEvent>,
    pub resolved: Map<i64, i64>,
    pub rows: Seq<ProblemRowView>,
    pub ok: bool,
}

/// `p` with `pre` put in front of its rows.
pub open spec fn prefix_rows(pre: Seq<ProblemRowView>, p: PairingView) -> PairingView {
    PairingView { rows: pre + p.rows, ..p }
}

/// The pairing pass over the queue of problems, `remaining` pops at most.
///
/// Each step pops the front problem and takes the resolution keyed by its
/// recovery event out of `resolved`. A problem without a resolution goes
/// back to the end of the queue when the page was full (its recovery may be
/// on the next page); otherwise it becomes a row, closed or still open.
/// Once `remaining` reaches zero one more problem is popped and dropped.
pub open spec fn pair_problems(
    queue: Seq<RawEvent>,
    resolved: Map<i64, i64>,
    remaining: nat,
    full: bool,
) -> PairingView
    decreases remaining,
{
    if queue.len() == 0 {
        PairingView { queue, resolved, rows: seq![], ok: true }
    } else if remaining == 0 {
        PairingView { queue: queue.drop_first(), resolved, rows: seq![], ok: true }
    } else {
        let ev = queue[0];
        match field_i64(ev.r_eventid@) {
            None => PairingView { queue, resolved, rows: seq![], ok: false },
            Some(r) => {
                let end = if resolved.contains_key(r) {
                    Some(resolved[r])
                } else {
                    None
                };
                let rest_resolved = resolved.remove(r);
                if end is None && full {
                    pair_problems(
                        queue.drop_first().push(ev),
                        rest_resolved,
                        (remaining - 1) as nat,
                        full,
                    )
                } else if !row_ready(ev) {
                    PairingView { queue, resolved, rows: seq![], ok: false }
                } else {
                    prefix_rows(
                        seq![row_of(ev, end)],
                        pair_problems(queue.drop_first(), rest_resolved, (remaining - 1) as nat, full),
                    )
                }
            },
        }
    }
}

/// What taking in a page does to the queue of problems and the known
/// resolutions: problem events (`value == 1`) are queued, every other event
/// records its clock as the resolution time of its id. `ok` is false when an
/// event lacks what this needs.
pub struct IntakeView {
    pub queue: Seq<RawEvent>,
    pub resolved: Map<i64, i64>,
    pub ok: bool,
}

/// Taking in the events of `page` in order.
pub open spec fn take_in(page: Seq<RawEvent>, queue: Seq<RawEvent>, resolved: Map<i64, i64>) -> IntakeView
    decreases page.len(),
{
    if page.len() == 0 {
        IntakeView { queue, resolved, ok: true }
    } else {
        let prev = take_in(page.drop_last(), queue, resolved);
        let ev = page.last();
        if !prev.ok {
            prev
        } else {
            match field_i64(ev.value@) {
                None => IntakeView { ok: false, ..prev },
                Some(v) => if v == 1 {
                    IntakeView { queue: prev.queue.push(ev), ..prev }
                } else {
                    match (field_i64(ev.eventid@), field_i64(ev.clock@)) {
                        (Some(id), Some(c)) => IntakeView {
                            resolved: prev.resolved.insert(id, c),
                            ..prev
                        },
                        _ => IntakeView { ok: false, ..prev },
                    }
                },
            }
        }
    }
}

/// The id from which the next page starts: one past the last event's id.
pub open spec fn page_next_eventid(page: Seq<RawEvent>) -> Option<i64> {
    if page.len() == 0 {
        None
    } else {
        match field_i64(page.last().eventid@) {
            Some(e) => Some((e + 1) as i64),
            None => None,
        }
    }
}

/// The time from which the next page starts: the last event's clock.
pub open spec fn page_next_from(page: Seq<RawEvent>) -> Option<i64> {
    if page.len() == 0 {
        None
    } else {
        field_i64(page.last().clock@)
    }
}

/// Whether the next id can be computed without overflow.
pub open spec fn page_next_eventid_ok(page: Seq<RawEvent>) -> bool {
    page.len() == 0 || field_i64(page.last().eventid@) != Some(i64::MAX)
}

/// Everything one page does to the task state, and what it yields.
pub struct AbsorbView {
    pub ok: bool,
    pub problems: Seq<RawEvent>,
    pub resolved: Map<i64, i64>,
    pub next_eventid: Option<i64>,
    pub next_from: Option<i64>,
    pub rows: Option<Seq<ProblemRowView>>,
}

/// Taking in a page, then, when problems are queued, pairing them. `rows`
/// is `None` when no problem was queued (nothing is to be stored); `ok` is
/// false exactly on the pages that the import cannot process (an event
/// lacks a field that its handling reads, or the next id overflows).
pub open spec fn absorb(problems: Seq<RawEvent>, resolved: Map<i64, i64>, page: Seq<RawEvent>) -> AbsorbView {
    let intake = take_in(page, problems, resolved);
    let head_ok = intake.ok && page_next_eventid_ok(page);
    if intake.queue.len() == 0 {
        AbsorbView {
            ok: head_ok,
            problems: intake.queue,
            resolved: intake.resolved,
            next_eventid: page_next_eventid(page),
            next_from: page_next_from(page),
            rows: None,
        }
    } else {
        let p = pair_problems(intake.queue, intake.resolved, intake.queue.len(), page.len() == LIMIT);
        AbsorbView {
            ok: head_ok && p.ok,
            problems: p.queue,
            resolved: p.resolved,
            next_eventid: page_next_eventid(page),
            next_from: page_next_from(page),
            rows: Some(p.rows),
        }
    }
}

/// The pairing pass (see [`pair_problems`]); `None` when an event it looks
/// at is malformed.
fn pair_queue(problems: &mut VecDeque<RawEvent>, resolved: &mut HashMap<i64, i64>, full: bool) -> (r:
    Option<Vec<ProblemRow>>)
    ensures
        ({
            let p = pair_problems(old(problems)@, old(resolved)@, old(problems)@.len(), full);
            &&& r is Some <==> p.ok
            &&& r matches Some(rows) ==> {
                &&& rows_view(rows@) == p.rows
                &&& final(problems)@ == p.queue
                &&& final(resolved)@ == p.resolved
            }
        }),
{
    let len = problems.len();
    let ghost total = pair_problems(problems@, resolved@, len as nat, full);
    let mut count: usize = 0;
    let mut rows: Vec<ProblemRow> = Vec::new();
    assert(rows_view(rows@) =~= Seq::<ProblemRowView>::empty());
    assert(prefix_rows(rows_view(rows@), total) =~= total);
    loop
        invariant_except_break
            total == prefix_rows(
                rows_view(rows@),
                pair_problems(problems@, resolved@, (len - count) as nat, full),
            ),
        invariant
            count <= len,
            len == old(problems)@.len(),
            total == pair_problems(old(problems)@, old(resolved)@, old(problems)@.len() as nat, full),
        ensures
            total == prefix_rows(
                rows_view(rows@),
                PairingView { queue: problems@, resolved: resolved@, rows: seq![], ok: true },
            ),
        decreases len - count,
    {
        let ghost q = problems@;
        let ghost res = resolved@;
        let ghost k = (len - count) as nat;
        let ev = match problems.pop_front() {
            Some(ev) => ev,
            None => {
                break;
            },
        };
        if count >= len {
            assert(problems@ =~= q.drop_first());
            break;
        }
        count = count + 1;
        assert(ev == q[0]);
        assert(problems@ =~= q.drop_first());
        let r_res = match as_i64(&ev.r_eventid) {
            Some(r) => r,
            None => {
                return None;
            },
        };
        let end_time = resolved.remove(&r_res);
        if end_time.is_none() && full {
            problems.push_back(ev);
            continue;
        }
        let RawEvent { eventid, clock, value: _, r_eventid: _, severity, name, opdata, host } = ev;
        let eid = match as_i64(&eventid) {
            Some(x) => x,
            None => {
                return None;
            },
        };
        let host_name = match host {
            JsonField::Str(s) => s,
            _ => {
                return None;
            },
        };
        let sev = match as_i32(&severity) {
            Some(n) => Severity::from_number(n),
            None => {
                return None;
            },
        };
        let trigger = match name {
            JsonField::Str(s) => s,
            _ => {
                return None;
            },
        };
        let start = match as_i64(&clock) {
            Some(x) => x,
            None => {
                return None;
            },
        };
        let op = match opdata {
            JsonField::Str(s) => s,
            _ => {
                return None;
            },
        };
        let status = if end_time.is_some() {
            Status::Resolved
        } else {
            Status::Ongoing
        };
        let row = ProblemRow {
            eventid: eid,
            host: host_name,
            severity: sev,
            trigger,
            start_time: start,
            opdata: op,
            end_time,
            status,
        };
        let ghost before = rows_view(rows@);
        rows.push(row);
        assert(row@ == row_of(q[0], end_time));
        assert(rows_view(rows@) =~= before + seq![row_of(q[0], end_time)]);
        assert(before + (seq![row_of(q[0], end_time)] + pair_problems(
            problems@,
            resolved@,
            (len - count) as nat,
            full,
        ).rows) =~= rows_view(rows@) + pair_problems(
            problems@,
            resolved@,
            (len - count) as nat,
            full,
        ).rows);
    }
    assert(total.rows =~= rows_view(rows@));
    Some(rows)
}

proof fn lemma_take_in_failure_sticks(page: Seq<RawEvent>, queue: Seq<RawEvent>, resolved: Map<i64, i64>, k: int)
    requires
        0 <= k <= page.len(),
        !take_in(page.take(k), queue, resolved).ok,
    ensures
        !take_in(page, queue, resolved).ok,
    decreases page.len() - k,
{
    if k == page.len() {
        assert(page.take(k) =~= page);
    } else {
        assert(page.take(k + 1).drop_last() =~= page.take(k));
        lemma_take_in_failure_sticks(page, queue, resolved, k + 1);
    }
}

/// Takes in the events of a page (see [`take_in`]); `false` when one is malformed.
fn take_in_page(problems: &mut VecDeque<RawEvent>, resolved: &mut HashMap<i64, i64>, page: &Vec<RawEvent>) -> (ok: bool)
    ensures
        ({
            let t = take_in(page@, old(problems)@, old(resolved)@);
            &&& ok == t.ok
            &&& ok ==> final(problems)@ == t.queue && final(resolved)@ == t.resolved
        }),
{
    let n = page.len();
    let mut i: usize = 0;
    assert(page@.take(0) =~= Seq::<RawEvent>::empty());
    while i < n
        invariant
            i <= n,
            n == page@.len(),
            take_in(page@.take(i as int), old(problems)@, old(resolved)@) == (IntakeView {
                queue: problems@,
                resolved: resolved@,
                ok: true,
            }),
        decreases n - i,
    {
        let ev = &page[i];
        assert(page@.take(i + 1).drop_last() =~= page@.take(i as int));
        assert(page@.take(i + 1).last() == *ev);
        match as_i64(&ev.value) {
            None => {
                proof {
                    lemma_take_in_failure_sticks(page@, old(problems)@, old(resolved)@, i + 1);
                }
                return false;
            },
            Some(v) => {
                if v == 1 {
                    problems.push_back(ev.clone());
                } else {
                    match (as_i64(&ev.eventid), as_i64(&ev.clock)) {
                        (Some(id), Some(c)) => {
                            resolved.insert(id, c);
                        },
                        _ => {
                            proof {
                                lemma_take_in_failure_sticks(page@, old(problems)@, old(resolved)@, i + 1);
                            }
                            return false;
                        },
                    }
                }
            },
        }
        i = i + 1;
    }
    assert(page@.take(n as int) =~= page@);
    true
}

/// The result of one page: how many events it held, where the next page
/// starts, and the rows to store (`None`: no problem was queued, nothing to store).
pub struct PageOutcome {
    pub length: usize,
    pub next_eventid: Option<i64>,
    pub next_from: Option<i64>,
    pub rows: Option<Vec<ProblemRow>>,
}

/// The views of optional rows.
pub open spec fn opt_rows_view(rows: Option<Vec<ProblemRow>>) -> Option<Seq<ProblemRowView>> {
    match rows {
        Some(v) => Some(rows_view(v@)),
        None => None,
    }
}

/// Whether an outcome is what [`absorb`] describes for a page of `len` events.
pub open spec fn outcome_matches(o: PageOutcome, a: AbsorbView, len: nat) -> bool {
    &&& o.length == len
    &&& o.next_eventid == a.next_eventid
    &&& o.next_from == a.next_from
    &&& opt_rows_view(o.rows) == a.rows
}

/// What to do once a page has been handled: the resolutions to write to
/// problems already stored, and whether the import of this group is over.
pub struct RoundAction {
    pub resolved_to_update: Option<HashMap<i64, i64>>,
    pub stop: bool,
}

/// The state that the import of one group keeps from page to page: problems
/// whose recovery has not been seen yet, and recoveries (recovery event id
/// to its clock) not yet matched to a problem.
pub struct TaskState {
    pub problems: VecDeque<RawEvent>,
    pub resolved: HashMap<i64, i64>,
}

impl TaskState {
    pub fn new() -> (r: Self)
        ensures
            r.problems@ == Seq::<RawEvent>::empty(),
            r.resolved@ == Map::<i64, i64>::empty(),
    {
        TaskState { problems: VecDeque::new(), resolved: HashMap::new() }
    }

    fn absorb_core(&mut self, page: &Vec<RawEvent>) -> (r: Option<PageOutcome>)
        ensures
            ({
                let a = absorb(old(self).problems@, old(self).resolved@, page@);
                &&& r is Some <==> a.ok
                &&& r matches Some(o) ==> {
                    &&& outcome_matches(o, a, page@.len())
                    &&& final(self).problems@ == a.problems
                    &&& final(self).resolved@ == a.resolved
                }
            }),
    {
        let n = page.len();
        let next_eventid = if n == 0 {
            None
        } else {
            match as_i64(&page[n - 1].eventid) {
                Some(e) => {
                    if e == i64::MAX {
                        return None;
                    }
                    Some(e + 1)
                },
                None => None,
            }
        };
        let next_from = if n == 0 {
            None
        } else {
            as_i64(&page[n - 1].clock)
        };
        if !take_in_page(&mut self.problems, &mut self.resolved, page) {
            return None;
        }
        if self.problems.len() == 0 {
            return Some(PageOutcome { length: n, next_eventid, next_from, rows: None });
        }
        match pair_queue(&mut self.problems, &mut self.resolved, n == LIMIT) {
            Some(rows) => Some(PageOutcome { length: n, next_eventid, next_from, rows: Some(rows) }),
            None => None,
        }
    }

    /// Handles one page of events (see [`absorb`]): queues its problems,
    /// records its recoveries, pairs the queued problems with the recoveries
    /// known so far and hands back the rows to store.
    pub fn absorb_page(&mut self, page: Vec<RawEvent>) -> (r: PageOutcome)
        requires
            absorb(old(self).problems@, old(self).resolved@, page@).ok,
        ensures
            ({
                let a = absorb(old(self).problems@, old(self).resolved@, page@);
                &&& outcome_matches(r, a, page@.len())
                &&& final(self).problems@ == a.problems
                &&& final(self).resolved@ == a.resolved
            }),
    {
        match self.absorb_core(&page) {
            Some(o) => o,
            None => vstd::pervasive::unreached(),
        }
    }

    /// Whether [`TaskState::absorb_page`] cannot handle `page` in this state:
    /// an event lacks a field that its handling reads, or the next event id
    /// overflows.
    pub fn page_is_malformed(&self, page: &Vec<RawEvent>) -> (b: bool)
        ensures
            b == !absorb(self.problems@, self.resolved@, page@).ok,
    {
        let mut trial = TaskState { problems: self.problems.clone(), resolved: self.resolved.clone() };
        assert(trial.problems@ =~= self.problems@);
        trial.absorb_core(page).is_none()
    }

    /// Closes a round after the rows of `page` were (or were not) stored.
    ///
    /// When rows were due and storing them failed, nothing changes and the
    /// same page is fetched again. Otherwise the recoveries left unmatched
    /// are handed out to update stored problems, the group's position moves
    /// past the page, and the import stops unless the page was full.
    pub fn finish_round(&mut self, meta: &mut GroupInfo, page: &PageOutcome, inserted: bool) -> (r: RoundAction)
        ensures
            page.rows is Some && !inserted ==> {
                &&& r.resolved_to_update is None
                &&& !r.stop
                &&& final(self).problems@ == old(self).problems@
                &&& final(self).resolved@ == old(self).resolved@
                &&& *final(meta) == *old(meta)
            },
            !(page.rows is Some && !inserted) ==> {
                &&& final(self).problems@ == old(self).problems@
                &&& final(self).resolved@ == Map::<i64, i64>::empty()
                &&& (r.resolved_to_update is None <==> old(self).resolved@.is_empty())
                &&& r.resolved_to_update matches Some(m) ==> m@ == old(self).resolved@
                &&& final(meta).last_event == match page.next_eventid {
                    Some(t) => t,
                    None => old(meta).last_event,
                }
                &&& final(meta).last_start == match page.next_from {
                    Some(t) => t,
                    None => old(meta).last_start,
                }
                &&& final(meta).hosts == old(meta).hosts
                &&& final(meta).last_change == old(meta).last_change
                &&& r.stop == (page.length != LIMIT)
            },
    {
        if page.rows.is_some() && !inserted {
            return RoundAction { resolved_to_update: None, stop: false };
        }
        let resolved_to_update = if !self.resolved.is_empty() {
            let mut drained: HashMap<i64, i64> = HashMap::new();
            std::mem::swap(&mut drained, &mut self.resolved);
            Some(drained)
        } else {
            proof {
                assert(self.resolved@ =~= Map::<i64, i64>::empty());
            }
            None
        };
        if let Some(t) = page.next_eventid {
            meta.last_event = t;
        }
        if let Some(t) = page.next_from {
            meta.last_start = t;
        }
        RoundAction { resolved_to_update, stop: LIMIT != page.length }
    }
}

// ---------------------------------------------------------------------------
// Laws of a round
// ---------------------------------------------------------------------------

/// In every row the pairing pass produces, the status is `Resolved` exactly
/// when an end time is known.
pub proof fn lemma_pair_rows_status(q: Seq<RawEvent>, resolved: Map<i64, i64>, k: nat, full: bool)
    ensures
        forall|i: int| 0 <= i < pair_problems(q, resolved, k, full).rows.len() ==> (#[trigger] pair_problems(q, resolved, k, full).rows[i].status
            == Status::Resolved <==> pair_problems(q, resolved, k, full).rows[i].end_time is Some),
    decreases k,
{
    if q.len() > 0 && k > 0 {
        let ev = q[0];
        if let Some(r) = field_i64(ev.r_eventid@) {
            let end = if resolved.contains_key(r) {
                Some(resolved[r])
            } else {
                None
            };
            let rest_resolved = resolved.remove(r);
            if end is None && full {
                lemma_pair_rows_status(q.drop_first().push(ev), rest_resolved, (k - 1) as nat, full);
            } else if row_ready(ev) {
                lemma_pair_rows_status(q.drop_first(), rest_resolved, (k - 1) as nat, full);
                let rest = pair_problems(q.drop_first(), rest_resolved, (k - 1) as nat, full);
                let all = pair_problems(q, resolved, k, full);
                assert forall|i: int| 0 <= i < all.rows.len() implies (#[trigger] all.rows[i].status
                    == Status::Resolved <==> all.rows[i].end_time is Some) by {
                    if i > 0 {
                        assert(all.rows[i] == rest.rows[i - 1]);
                    }
                }
            }
        }
    }
}

/// A pairing pass loses at most one problem: every problem it pops either
/// becomes a row or is queued again, except the one popped after the last
/// permitted step, which is dropped.
pub proof fn lemma_pair_loses_at_most_one(q: Seq<RawEvent>, resolved: Map<i64, i64>, k: nat, full: bool)
    requires
        pair_problems(q, resolved, k, full).ok,
    ensures
        q.len() <= pair_problems(q, resolved, k, full).rows.len() + pair_problems(q, resolved, k, full).queue.len() + 1,
        pair_problems(q, resolved, k, full).rows.len() + pair_problems(q, resolved, k, full).queue.len() <= q.len(),
    decreases k,
{
    if q.len() > 0 && k > 0 {
        let ev = q[0];
        let r = field_i64(ev.r_eventid@)->0;
        let end = if resolved.contains_key(r) {
            Some(resolved[r])
        } else {
            None
        };
        let rest_resolved = resolved.remove(r);
        if end is None && full {
            lemma_pair_loses_at_most_one(q.drop_first().push(ev), rest_resolved, (k - 1) as nat, full);
        } else {
            lemma_pair_loses_at_most_one(q.drop_first(), rest_resolved, (k - 1) as nat, full);
        }
    }
}

/// When the page was not full, no problem waits for a later page: every
/// queued problem becomes a row and the queue ends empty.
pub proof fn lemma_pair_not_full_drains(q: Seq<RawEvent>, resolved: Map<i64, i64>, k: nat)
    requires
        k >= q.len(),
        pair_problems(q, resolved, k, false).ok,
    ensures
        pair_problems(q, resolved, k, false).queue.len() == 0,
        pair_problems(q, resolved, k, false).rows.len() == q.len(),
    decreases k,
{
    if q.len() > 0 {
        let ev = q[0];
        let r = field_i64(ev.r_eventid@)->0;
        lemma_pair_not_full_drains(q.drop_first(), resolved.remove(r), (k - 1) as nat);
    }
}

/// The pairing pass only uses up recoveries: what is left of them is part of
/// what there was, unchanged.
pub proof fn lemma_pair_uses_up_recoveries(q: Seq<RawEvent>, resolved: Map<i64, i64>, k: nat, full: bool)
    ensures
        pair_problems(q, resolved, k, full).resolved.submap_of(resolved),
    decreases k,
{
    if q.len() > 0 && k > 0 {
        let ev = q[0];
        if let Some(r) = field_i64(ev.r_eventid@) {
            let end = if resolved.contains_key(r) {
                Some(resolved[r])
            } else {
                None
            };
            let rest_resolved = resolved.remove(r);
            assert(rest_resolved.submap_of(resolved));
            if end is None && full {
                lemma_pair_uses_up_recoveries(q.drop_first().push(ev), rest_resolved, (k - 1) as nat, full);
                let p = pair_problems(q.drop_first().push(ev), rest_resolved, (k - 1) as nat, full);
                assert forall|x: i64| #[trigger] p.resolved.contains_key(x) implies resolved.contains_key(x)
                    && p.resolved[x] == resolved[x] by {
                    assert(rest_resolved.contains_key(x));
                }
            } else if row_ready(ev) {
                lemma_pair_uses_up_recoveries(q.drop_first(), rest_resolved, (k - 1) as nat, full);
                let p = pair_problems(q.drop_first(), rest_resolved, (k - 1) as nat, full);
                assert forall|x: i64| #[trigger] p.resolved.contains_key(x) implies resolved.contains_key(x)
                    && p.resolved[x] == resolved[x] by {
                    assert(rest_resolved.contains_key(x));
                }
            }
        }
    }
}

/// Whether `row` stores problem event `ev`: the event's id, host, trigger
/// name, clock and operational data as the event writes them (the texts
/// unchanged, the numbers read from their strings), the severity that
/// Zabbix numbers as the event does, `Resolved` exactly when an end time is
/// set, and that end time (if any) the clock that `resolved` records for
/// the problem's recovery event.
pub open spec fn row_stores(row: ProblemRowView, ev: RawEvent, resolved: Map<i64, i64>) -> bool {
    &&& field_i64(ev.eventid@) == Some(row.eventid)
    &&& ev.host@ == JsonFieldView::Str(row.host)
    &&& ev.name@ == JsonFieldView::Str(row.trigger)
    &&& ev.opdata@ == JsonFieldView::Str(row.opdata)
    &&& field_i64(ev.clock@) == Some(row.start_time)
    &&& field_i32(ev.severity@) is Some
    &&& row.severity == severity_of_number(field_i32(ev.severity@)->0)
    &&& (row.status == Status::Resolved <==> row.end_time is Some)
    &&& row.end_time matches Some(t) ==> {
        &&& field_i64(ev.r_eventid@) is Some
        &&& resolved.contains_key(field_i64(ev.r_eventid@)->0)
        &&& resolved[field_i64(ev.r_eventid@)->0] == t
    }
}

/// Each row of a pairing pass stores one of the queued problems, closed (if
/// at all) at the clock recorded for that problem's own recovery event.
pub proof fn lemma_pair_row_comes_from_problem(
    q: Seq<RawEvent>,
    resolved: Map<i64, i64>,
    k: nat,
    full: bool,
    j: int,
)
    requires
        0 <= j < pair_problems(q, resolved, k, full).rows.len(),
    ensures
        exists|i: int|
            0 <= i < q.len() && #[trigger] row_stores(
                pair_problems(q, resolved, k, full).rows[j],
                q[i],
                resolved,
            ),
    decreases k,
{
    let all = pair_problems(q, resolved, k, full);
    let ev = q[0];
    let r = field_i64(ev.r_eventid@)->0;
    let end = if resolved.contains_key(r) {
        Some(resolved[r])
    } else {
        None
    };
    let rest_resolved = resolved.remove(r);
    let next_q = if end is None && full {
        q.drop_first().push(ev)
    } else {
        q.drop_first()
    };
    let rest = pair_problems(next_q, rest_resolved, (k - 1) as nat, full);
    let shift = if end is None && full {
        0int
    } else {
        1int
    };
    assert(q.len() > 0 && k > 0);
    assert(field_i64(ev.r_eventid@) is Some);
    if end is None && full {
        assert(all == rest);
    } else {
        assert(row_ready(ev));
        assert(all.rows == seq![row_of(ev, end)] + rest.rows);
    }
    if shift == 1 && j == 0 {
        assert(row_stores(all.rows[0], q[0], resolved));
        return;
    }
    assert(all.rows[j] == rest.rows[j - shift]);
    lemma_pair_row_comes_from_problem(next_q, rest_resolved, (k - 1) as nat, full, j - shift);
    let i = choose|i: int| 0 <= i < next_q.len() && #[trigger] row_stores(rest.rows[j - shift], next_q[i], rest_resolved);
    let qi = if end is None && full && i == q.len() - 1 {
        0int
    } else {
        i + 1
    };
    assert(next_q[i] == q[qi]);
    let row = all.rows[j];
    if row.end_time is Some {
        let rr = field_i64(q[qi].r_eventid@)->0;
        assert(rest_resolved.contains_key(rr));
        assert(rr != r);
    }
    assert(row_stores(all.rows[j], q[qi], resolved));
}

/// Whether an event reports a problem (its `value` is 1).
pub open spec fn is_problem_event(ev: RawEvent) -> bool {
    field_i64(ev.value@) == Some(1i64)
}

/// The problem events of a page, in order.
pub open spec fn problem_events(page: Seq<RawEvent>) -> Seq<RawEvent> {
    page.filter(|e: RawEvent| is_problem_event(e))
}

/// Taking in a page queues its problem events after those already waiting,
/// in the order in which they arrived.
pub proof fn lemma_take_in_queues_in_order(page: Seq<RawEvent>, queue: Seq<RawEvent>, resolved: Map<i64, i64>)
    requires
        take_in(page, queue, resolved).ok,
    ensures
        take_in(page, queue, resolved).queue == queue + problem_events(page),
    decreases page.len(),
{
    reveal(Seq::filter);
    if page.len() == 0 {
        assert(problem_events(page) =~= Seq::<RawEvent>::empty());
        assert(queue + problem_events(page) =~= queue);
    } else {
        let prev = take_in(page.drop_last(), queue, resolved);
        assert(prev.ok);
        lemma_take_in_queues_in_order(page.drop_last(), queue, resolved);
        let ev = page.last();
        assert(problem_events(page) == if is_problem_event(ev) {
            problem_events(page.drop_last()).push(ev)
        } else {
            problem_events(page.drop_last())
        });
        if is_problem_event(ev) {
            assert(queue + problem_events(page) =~= (queue + problem_events(page.drop_last())).push(ev));
        }
    }
}

/// After a page shorter than [`LIMIT`], no problem is left waiting, and one
/// row is produced for every problem that was queued.
pub proof fn lemma_short_page_leaves_nothing_pending(
    problems: Seq<RawEvent>,
    resolved: Map<i64, i64>,
    page: Seq<RawEvent>,
)
    requires
        absorb(problems, resolved, page).ok,
        page.len() != LIMIT,
    ensures
        absorb(problems, resolved, page).problems.len() == 0,
        absorb(problems, resolved, page).rows matches Some(rows) ==> rows.len() == take_in(
            page,
            problems,
            resolved,
        ).queue.len(),
{
    let intake = take_in(page, problems, resolved);
    if intake.queue.len() > 0 {
        lemma_pair_not_full_drains(intake.queue, intake.resolved, intake.queue.len());
    }
}

/// Each row that a page yields stores a problem that was waiting or that the
/// page reported, closed (if at all) at the clock recorded, after taking in
/// the page, for that problem's own recovery event.
pub proof fn lemma_page_row_comes_from_problem(
    problems: Seq<RawEvent>,
    resolved: Map<i64, i64>,
    page: Seq<RawEvent>,
    j: int,
)
    requires
        absorb(problems, resolved, page).ok,
        absorb(problems, resolved, page).rows matches Some(rows) && 0 <= j < rows.len(),
    ensures
        exists|i: int|
            0 <= i < (problems + problem_events(page)).len() && #[trigger] row_stores(
                absorb(problems, resolved, page).rows->0[j],
                (problems + problem_events(page))[i],
                take_in(page, problems, resolved).resolved,
            ),
{
    let intake = take_in(page, problems, resolved);
    lemma_take_in_queues_in_order(page, problems, resolved);
    lemma_pair_row_comes_from_problem(intake.queue, intake.resolved, intake.queue.len(), page.len() == LIMIT, j);
}

/// Whether a problem event carries, in the form Zabbix sends them, what its
/// pairing and its row read: eventid, clock, severity and r_eventid as
/// numbers written in strings, and host, trigger name and operational data
/// as JSON strings, whatever text they hold (the empty text included).
pub open spec fn problem_event_complete(ev: RawEvent) -> bool {
    &&& field_i64(ev.eventid@) is Some
    &&& field_i64(ev.clock@) is Some
    &&& field_i32(ev.severity@) is Some
    &&& field_i64(ev.r_eventid@) is Some
    &&& ev.host@ is Str
    &&& ev.name@ is Str
    &&& ev.opdata@ is Str
}

/// Whether an event carries what its intake reads: a `value`, and then
/// either everything a problem needs or, for any other event, its id and
/// its clock.
pub open spec fn event_complete(ev: RawEvent) -> bool {
    match field_i64(ev.value@) {
        None => false,
        Some(v) => if v == 1 {
            problem_event_complete(ev)
        } else {
            field_i64(ev.eventid@) is Some && field_i64(ev.clock@) is Some
        },
    }
}

proof fn lemma_take_in_complete(page: Seq<RawEvent>, queue: Seq<RawEvent>, resolved: Map<i64, i64>)
    requires
        forall|i: int| 0 <= i < page.len() ==> event_complete(#[trigger] page[i]),
        forall|i: int| 0 <= i < queue.len() ==> problem_event_complete(#[trigger] queue[i]),
    ensures
        take_in(page, queue, resolved).ok,
        forall|i: int|
            0 <= i < take_in(page, queue, resolved).queue.len() ==> problem_event_complete(
                #[trigger] take_in(page, queue, resolved).queue[i],
            ),
    decreases page.len(),
{
    if page.len() > 0 {
        let t = page.drop_last();
        assert forall|i: int| 0 <= i < t.len() implies event_complete(#[trigger] t[i]) by {
            assert(t[i] == page[i]);
        }
        lemma_take_in_complete(t, queue, resolved);
        assert(event_complete(page[page.len() - 1]));
        let prev = take_in(t, queue, resolved);
        let cur = take_in(page, queue, resolved);
        assert forall|i: int| 0 <= i < cur.queue.len() implies problem_event_complete(
            #[trigger] cur.queue[i],
        ) by {
            if i < prev.queue.len() {
                assert(cur.queue[i] == prev.queue[i]);
            }
        }
    }
}

proof fn lemma_pair_complete(q: Seq<RawEvent>, resolved: Map<i64, i64>, k: nat, full: bool)
    requires
        forall|i: int| 0 <= i < q.len() ==> problem_event_complete(#[trigger] q[i]),
    ensures
        pair_problems(q, resolved, k, full).ok,
        forall|i: int|
            0 <= i < pair_problems(q, resolved, k, full).queue.len() ==> problem_event_complete(
                #[trigger] pair_problems(q, resolved, k, full).queue[i],
            ),
    decreases k,
{
    if q.len() > 0 {
        let ev = q[0];
        assert(problem_event_complete(ev));
        if k == 0 {
            assert forall|i: int| 0 <= i < q.drop_first().len() implies problem_event_complete(
                #[trigger] q.drop_first()[i],
            ) by {
                assert(q.drop_first()[i] == q[i + 1]);
            }
        } else {
            let r = field_i64(ev.r_eventid@)->0;
            let end = if resolved.contains_key(r) {
                Some(resolved[r])
            } else {
                None
            };
            let rest_resolved = resolved.remove(r);
            if end is None && full {
                let nq = q.drop_first().push(ev);
                assert forall|i: int| 0 <= i < nq.len() implies problem_event_complete(#[trigger] nq[i]) by {
                    if i < q.len() - 1 {
                        assert(nq[i] == q[i + 1]);
                    }
                }
                lemma_pair_complete(nq, rest_resolved, (k - 1) as nat, full);
            } else {
                let nq = q.drop_first();
                assert forall|i: int| 0 <= i < nq.len() implies problem_event_complete(#[trigger] nq[i]) by {
                    assert(nq[i] == q[i + 1]);
                }
                assert(row_ready(ev));
                lemma_pair_complete(nq, rest_resolved, (k - 1) as nat, full);
            }
        }
    }
}

/// A page is never refused for the texts its events hold: when the waiting
/// problems and the page's problem events are complete (any host, trigger
/// name or operational data, the empty text included), every other event
/// has an id and a clock, and the next event id does not overflow, the page
/// is handled ([`TaskState::page_is_malformed`] is false) and the problems
/// left waiting are complete again.
pub proof fn lemma_complete_page_accepted(problems: Seq<RawEvent>, resolved: Map<i64, i64>, page: Seq<RawEvent>)
    requires
        forall|i: int| 0 <= i < problems.len() ==> problem_event_complete(#[trigger] problems[i]),
        forall|i: int| 0 <= i < page.len() ==> event_complete(#[trigger] page[i]),
        page_next_eventid_ok(page),
    ensures
        absorb(problems, resolved, page).ok,
        forall|i: int|
            0 <= i < absorb(problems, resolved, page).problems.len() ==> problem_event_complete(
                #[trigger] absorb(problems, resolved, page).problems[i],
            ),
{
    lemma_take_in_complete(page, problems, resolved);
    let intake = take_in(page, problems, resolved);
    if intake.queue.len() > 0 {
        lemma_pair_complete(intake.queue, intake.resolved, intake.queue.len(), page.len() == LIMIT);
    }
}

/// Whether event `i` of `page` is a recovery whose id no later recovery of
/// the page carries.
pub open spec fn last_recovery_with_id(page: Seq<RawEvent>, i: int) -> bool {
    &&& !is_problem_event(page[i])
    &&& forall|j: int|
        i < j < page.len() && !is_problem_event(#[trigger] page[j]) ==> field_i64(page[j].eventid@)
            != field_i64(page[i].eventid@)
}

/// Taking in a page records the clock of each of its recovery events under
/// the event's id (a later recovery with the same id replacing it), and
/// keeps every recovery known before whose id none of them carries.
pub proof fn lemma_take_in_records_recoveries(page: Seq<RawEvent>, queue: Seq<RawEvent>, resolved: Map<i64, i64>)
    requires
        take_in(page, queue, resolved).ok,
    ensures
        forall|i: int|
            0 <= i < page.len() && #[trigger] last_recovery_with_id(page, i) ==> {
                &&& field_i64(page[i].eventid@) is Some
                &&& field_i64(page[i].clock@) is Some
                &&& take_in(page, queue, resolved).resolved.contains_key(field_i64(page[i].eventid@)->0)
                &&& take_in(page, queue, resolved).resolved[field_i64(page[i].eventid@)->0] == field_i64(
                    page[i].clock@,
                )->0
            },
        forall|id: i64|
            (forall|j: int| 0 <= j < page.len() && !is_problem_event(#[trigger] page[j]) ==> field_i64(page[j].eventid@) != Some(id))
                ==> (#[trigger] take_in(page, queue, resolved).resolved.contains_key(id) == resolved.contains_key(id)
                && (resolved.contains_key(id) ==> take_in(page, queue, resolved).resolved[id] == resolved[id])),
    decreases page.len(),
{
    if page.len() > 0 {
        let t = page.drop_last();
        let n = page.len() - 1;
        assert(take_in(t, queue, resolved).ok);
        lemma_take_in_records_recoveries(t, queue, resolved);
        assert forall|j: int| 0 <= j < t.len() implies t[j] == page[j] by {}
        assert(page.last() == page[n]);
        let prev = take_in(t, queue, resolved);
        let cur = take_in(page, queue, resolved);
        assert forall|i: int| 0 <= i < page.len() && #[trigger] last_recovery_with_id(page, i) implies {
            &&& field_i64(page[i].eventid@) is Some
            &&& field_i64(page[i].clock@) is Some
            &&& cur.resolved.contains_key(field_i64(page[i].eventid@)->0)
            &&& cur.resolved[field_i64(page[i].eventid@)->0] == field_i64(page[i].clock@)->0
        } by {
            if i < n {
                assert forall|j: int| i < j < t.len() && !is_problem_event(#[trigger] t[j]) implies field_i64(t[j].eventid@)
                    != field_i64(t[i].eventid@) by {
                    assert(t[j] == page[j]);
                }
                assert(last_recovery_with_id(t, i));
                if !is_problem_event(page[n]) {
                    assert(field_i64(page[n].eventid@) != field_i64(page[i].eventid@));
                }
            }
        }
        assert forall|id: i64|
            (forall|j: int| 0 <= j < page.len() && !is_problem_event(#[trigger] page[j]) ==> field_i64(page[j].eventid@) != Some(id))
            implies (#[trigger] cur.resolved.contains_key(id) == resolved.contains_key(id)
                && (resolved.contains_key(id) ==> cur.resolved[id] == resolved[id])) by {
            assert forall|j: int| 0 <= j < t.len() && !is_problem_event(#[trigger] t[j]) implies field_i64(t[j].eventid@) != Some(id) by {
                assert(t[j] == page[j]);
            }
            if !is_problem_event(page[n]) {
                assert(field_i64(page[n].eventid@) != Some(id));
            }
        }
    }
}

/// Whether no recovery recorded in `resolved` is claimed by two of the
/// queued problems (open problems all carry recovery id 0, which names no
/// recorded recovery).
pub open spec fn recoveries_unshared(q: Seq<RawEvent>, resolved: Map<i64, i64>) -> bool {
    forall|a: int, b: int|
        0 <= a < b < q.len() && #[trigger] field_i64(q[a].r_eventid@) == #[trigger] field_i64(q[b].r_eventid@)
            && field_i64(q[a].r_eventid@) is Some ==> !resolved.contains_key(field_i64(q[a].r_eventid@)->0)
}

/// Whether `row`, stored for problem `ev`, is closed exactly when `resolved`
/// records the problem's recovery, and then at the recorded clock.
pub open spec fn closed_as_recorded(row: ProblemRowView, ev: RawEvent, resolved: Map<i64, i64>) -> bool {
    &&& field_i64(ev.r_eventid@) is Some
    &&& row.end_time == if resolved.contains_key(field_i64(ev.r_eventid@)->0) {
        Some(resolved[field_i64(ev.r_eventid@)->0])
    } else {
        None
    }
}

/// When no recorded recovery is claimed by two queued problems, every row
/// of a pairing pass stores one of them and is closed exactly when its own
/// recovery is recorded, at that recovery's clock: no known recovery is
/// left unused on a row, and no row is closed without one.
pub proof fn lemma_pair_closes_as_recorded(
    q: Seq<RawEvent>,
    resolved: Map<i64, i64>,
    k: nat,
    full: bool,
    j: int,
)
    requires
        recoveries_unshared(q, resolved),
        0 <= j < pair_problems(q, resolved, k, full).rows.len(),
    ensures
        exists|i: int|
            0 <= i < q.len() && #[trigger] row_stores(pair_problems(q, resolved, k, full).rows[j], q[i], resolved)
                && closed_as_recorded(pair_problems(q, resolved, k, full).rows[j], q[i], resolved),
    decreases k,
{
    let all = pair_problems(q, resolved, k, full);
    let ev = q[0];
    let r = field_i64(ev.r_eventid@)->0;
    let end = if resolved.contains_key(r) {
        Some(resolved[r])
    } else {
        None
    };
    let rest_resolved = resolved.remove(r);
    let rotate = end is None && full;
    let next_q = if rotate {
        q.drop_first().push(ev)
    } else {
        q.drop_first()
    };
    let rest = pair_problems(next_q, rest_resolved, (k - 1) as nat, full);
    let shift = if rotate {
        0int
    } else {
        1int
    };
    assert(q.len() > 0 && k > 0);
    assert(field_i64(ev.r_eventid@) is Some);
    if rotate {
        assert(all == rest);
    } else {
        assert(row_ready(ev));
        assert(all.rows == seq![row_of(ev, end)] + rest.rows);
    }
    if shift == 1 && j == 0 {
        assert(row_stores(all.rows[0], q[0], resolved) && closed_as_recorded(all.rows[0], q[0], resolved));
        return;
    }
    // the queue passed on keeps recoveries unshared
    let qi_of = |i: int| if rotate && i == q.len() - 1 {
        0int
    } else {
        i + 1
    };
    assert forall|i: int| 0 <= i < next_q.len() implies next_q[i] == q[qi_of(i)] by {}
    assert forall|a: int, b: int|
        0 <= a < b < next_q.len() && #[trigger] field_i64(next_q[a].r_eventid@) == #[trigger] field_i64(
            next_q[b].r_eventid@,
        ) && field_i64(next_q[a].r_eventid@) is Some implies !rest_resolved.contains_key(
        field_i64(next_q[a].r_eventid@)->0,
    ) by {
        let qa = qi_of(a);
        let qb = qi_of(b);
        assert(next_q[a] == q[qa] && next_q[b] == q[qb]);
        if qa < qb {
            assert(field_i64(q[qa].r_eventid@) == field_i64(q[qb].r_eventid@));
        } else {
            assert(qb < qa);
            assert(field_i64(q[qb].r_eventid@) == field_i64(q[qa].r_eventid@));
        }
    }
    assert(all.rows[j] == rest.rows[j - shift]);
    lemma_pair_closes_as_recorded(next_q, rest_resolved, (k - 1) as nat, full, j - shift);
    let i = choose|i: int|
        0 <= i < next_q.len() && #[trigger] row_stores(rest.rows[j - shift], next_q[i], rest_resolved)
            && closed_as_recorded(rest.rows[j - shift], next_q[i], rest_resolved);
    let qi = qi_of(i);
    assert(next_q[i] == q[qi]);
    let row = all.rows[j];
    let rr = field_i64(q[qi].r_eventid@)->0;
    if rr == r {
        if qi != 0 {
            assert(field_i64(q[0].r_eventid@) == field_i64(q[qi].r_eventid@));
            assert(!resolved.contains_key(r));
        } else {
            assert(rotate);
        }
    }
    if row.end_time is Some {
        assert(rest_resolved.contains_key(rr));
        assert(rr != r);
    }
    assert(row_stores(row, q[qi], resolved));
    assert(closed_as_recorded(row, q[qi], resolved));
}

} // verus!
