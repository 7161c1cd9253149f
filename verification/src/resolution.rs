use std::collections::HashMap;
use vstd::prelude::*;

use crate::json::{as_i64, field_i64, JsonField};

verus! {

broadcast use vstd::std_specs::hash::group_hash_axioms;

/// A stored problem as `event.get` returns it: the problem's id and the id
/// of the event that recovered it (`0` while it is open).
pub struct EventLink {
    pub eventid: JsonField,
    pub r_eventid: JsonField,
}

/// A recovery event as `event.get` returns it: its id and its clock.
pub struct EventClock {
    pub eventid: JsonField,
    pub clock: JsonField,
}

/// The state of the first matching pass: the recoveries still unused, the
/// `(problem id, end time)` updates found, and the problems whose recovery
/// clock must still be fetched (recovery id to problem id).
pub struct MatchView {
    pub resolved: Map<i64, i64>,
    pub updates: Seq<(i64, i64)>,
    pub to_get: Map<i64, i64>,
}

/// The first matching pass over the stored problems, in order. A problem
/// with a recovery id of at least 1 is closed with the recovery's clock when
/// that recovery is among the known ones (which uses it up); otherwise its
/// recovery is to be fetched. Entries whose ids cannot be read are skipped.
pub open spec fn match_links(links: Seq<EventLink>, resolved: Map<i64, i64>) -> MatchView
    decreases links.len(),
{
    if links.len() == 0 {
        MatchView { resolved, updates: seq![], to_get: Map::empty() }
    } else {
        let prev = match_links(links.drop_last(), resolved);
        let l = links.last();
        match field_i64(l.r_eventid@) {
            Some(r) => if r >= 1 {
                match field_i64(l.eventid@) {
                    Some(e) => if prev.resolved.contains_key(r) {
                        MatchView {
                            resolved: prev.resolved.remove(r),
                            updates: prev.updates.push((e, prev.resolved[r])),
                            ..prev
                        }
                    } else {
                        MatchView { to_get: prev.to_get.insert(r, e), ..prev }
                    },
                    None => prev,
                }
            } else {
                prev
            },
            None => prev,
        }
    }
}

/// The state of the second pass: recoveries still awaited and the updates.
pub struct LookupView {
    pub to_get: Map<i64, i64>,
    pub updates: Seq<(i64, i64)>,
}

/// The second pass over the fetched recovery events, in order: an awaited
/// recovery is taken off the list and, when its clock can be read, closes
/// its problem at that time.
pub open spec fn complete_lookups(
    replies: Seq<EventClock>,
    to_get: Map<i64, i64>,
    updates: Seq<(i64, i64)>,
) -> LookupView
    decreases replies.len(),
{
    if replies.len() == 0 {
        LookupView { to_get, updates }
    } else {
        let prev = complete_lookups(replies.drop_last(), to_get, updates);
        let c = replies.last();
        match field_i64(c.eventid@) {
            Some(r) => if prev.to_get.contains_key(r) {
                let eid = prev.to_get[r];
                match field_i64(c.clock@) {
                    Some(end) => LookupView {
                        to_get: prev.to_get.remove(r),
                        updates: prev.updates.push((eid, end)),
                    },
                    None => LookupView { to_get: prev.to_get.remove(r), ..prev },
                }
            } else {
                prev
            },
            None => prev,
        }
    }
}

/// The first pass (see [`match_links`]): returns the updates found and the
/// recoveries to fetch, and takes the used recoveries out of `resolved`.
pub fn match_resolutions(resolved: &mut HashMap<i64, i64>, links: &Vec<EventLink>) -> (r: (
    Vec<(i64, i64)>,
    HashMap<i64, i64>,
))
    ensures
        ({
            let m = match_links(links@, old(resolved)@);
            &&& final(resolved)@ == m.resolved
            &&& r.0@ == m.updates
            &&& r.1@ == m.to_get
        }),
{
    let mut updates: Vec<(i64, i64)> = Vec::new();
    let mut to_get: HashMap<i64, i64> = HashMap::new();
    let n = links.len();
    let mut i: usize = 0;
    assert(links@.take(0) =~= Seq::<EventLink>::empty());
    while i < n
        invariant
            i <= n,
            n == links@.len(),
            match_links(links@.take(i as int), old(resolved)@) == (MatchView {
                resolved: resolved@,
                updates: updates@,
                to_get: to_get@,
            }),
        decreases n - i,
    {
        let l = &links[i];
        assert(links@.take(i + 1).drop_last() =~= links@.take(i as int));
        assert(links@.take(i + 1).last() == *l);
        if let Some(r_eid) = as_i64(&l.r_eventid) {
            if r_eid >= 1 {
                if let Some(eid) = as_i64(&l.eventid) {
                    let ghost before = resolved@;
                    match resolved.remove(&r_eid) {
                        Some(clock) => {
                            assert(before.contains_key(r_eid));
                            assert(before[r_eid] == clock);
                            assert(resolved@ == before.remove(r_eid));
                            updates.push((eid, clock));
                        },
                        None => {
                            assert(!before.contains_key(r_eid));
                            assert(resolved@ == before);
                            to_get.insert(r_eid, eid);
                        },
                    }
                }
            }
        }
        i = i + 1;
    }
    assert(links@.take(n as int) =~= links@);
    (updates, to_get)
}

/// The second pass (see [`complete_lookups`]): appends to `updates` the
/// problems closed by the fetched recoveries and takes them off `to_get`.
pub fn complete_resolutions(to_get: &mut HashMap<i64, i64>, replies: &Vec<EventClock>, updates: &mut Vec<
    (i64, i64),
>)
    ensures
        ({
            let l = complete_lookups(replies@, old(to_get)@, old(updates)@);
            &&& final(to_get)@ == l.to_get
            &&& final(updates)@ == l.updates
        }),
{
    let n = replies.len();
    let mut i: usize = 0;
    assert(replies@.take(0) =~= Seq::<EventClock>::empty());
    while i < n
        invariant
            i <= n,
            n == replies@.len(),
            complete_lookups(replies@.take(i as int), old(to_get)@, old(updates)@) == (LookupView {
                to_get: to_get@,
                updates: updates@,
            }),
        decreases n - i,
    {
        let c = &replies[i];
        assert(replies@.take(i + 1).drop_last() =~= replies@.take(i as int));
        assert(replies@.take(i + 1).last() == *c);
        if let Some(r_eid) = as_i64(&c.eventid) {
            let ghost before = to_get@;
            match to_get.remove(&r_eid) {
                Some(eid) => {
                    assert(before.contains_key(r_eid) && before[r_eid] == eid);
                    assert(to_get@ == before.remove(r_eid));
                    if let Some(end_time) = as_i64(&c.clock) {
                        updates.push((eid, end_time));
                    }
                },
                None => {
                    assert(!before.contains_key(r_eid));
                    assert(to_get@ == before);
                },
            }
        }
        i = i + 1;
    }
    assert(replies@.take(n as int) =~= replies@);
}

/// What an update of resolved problems does once the stored problems have
/// been asked for.
pub enum ResolutionPlan {
    /// The stored problems could not be fetched: nothing is updated and the
    /// update reports failure.
    Failed,
    /// Close these problems (problem id, end time); no recovery clock is missing.
    Close(Vec<(i64, i64)>),
    /// Close these problems, and first fetch the clocks of these recoveries
    /// (recovery id to problem id) with a second `event.get`.
    Lookup(Vec<(i64, i64)>, HashMap<i64, i64>),
}

impl ResolutionPlan {
    /// Whether the update reports success: it does whenever the stored
    /// problems could be fetched.
    pub fn succeeded(&self) -> (r: bool)
        ensures
            r == !(self is Failed),
    {
        match self {
            ResolutionPlan::Failed => false,
            _ => true,
        }
    }
}

/// Decides an update of resolved problems from the reply to the request for
/// the stored problems (`None` when that request failed): the first pass
/// (see [`match_links`]) runs on the reply, and a second request is planned
/// only when some recovery clock is still missing.
pub fn plan_resolutions(resolved: &mut HashMap<i64, i64>, links: Option<&Vec<EventLink>>) -> (r:
    ResolutionPlan)
    ensures
        match links {
            None => r is Failed && final(resolved)@ == old(resolved)@,
            Some(ls) => {
                let m = match_links(ls@, old(resolved)@);
                &&& final(resolved)@ == m.resolved
                &&& if m.to_get.is_empty() {
                    r matches ResolutionPlan::Close(u) && u@ == m.updates
                } else {
                    r matches ResolutionPlan::Lookup(u, t) && u@ == m.updates && t@ == m.to_get
                }
            },
        },
{
    match links {
        None => ResolutionPlan::Failed,
        Some(ls) => {
            let (updates, to_get) = match_resolutions(resolved, ls);
            if to_get.is_empty() {
                ResolutionPlan::Close(updates)
            } else {
                ResolutionPlan::Lookup(updates, to_get)
            }
        },
    }
}

/// The problems a planned lookup closes, given the reply to the second
/// request (`None` when it failed, which closes only those already known).
pub fn finish_lookup(updates: Vec<(i64, i64)>, to_get: HashMap<i64, i64>, replies: Option<&Vec<EventClock>>) -> (r:
    Vec<(i64, i64)>)
    ensures
        r@ == match replies {
            Some(rs) => complete_lookups(rs@, to_get@, updates@).updates,
            None => updates@,
        },
{
    let mut updates = updates;
    match replies {
        None => updates,
        Some(rs) => {
            let mut to_get = to_get;
            complete_resolutions(&mut to_get, rs, &mut updates);
            updates
        },
    }
}

/// Each known recovery closes at most one problem: the first pass only takes
/// recoveries out of the known ones, one per update it produces.
pub proof fn lemma_match_uses_each_recovery_once(links: Seq<EventLink>, resolved: Map<i64, i64>)
    requires
        resolved.dom().finite(),
    ensures
        match_links(links, resolved).resolved.submap_of(resolved),
        match_links(links, resolved).resolved.dom().finite(),
        match_links(links, resolved).updates.len() + match_links(links, resolved).resolved.len()
            == resolved.len(),
    decreases links.len(),
{
    if links.len() > 0 {
        lemma_match_uses_each_recovery_once(links.drop_last(), resolved);
        let prev = match_links(links.drop_last(), resolved);
        let cur = match_links(links, resolved);
        let l = links.last();
        if let Some(r) = field_i64(l.r_eventid@) {
            if r >= 1 {
                if let Some(e) = field_i64(l.eventid@) {
                    if prev.resolved.contains_key(r) {
                        assert(cur.resolved == prev.resolved.remove(r));
                        assert(cur.resolved.dom() =~= prev.resolved.dom().remove(r));
                        assert forall|x: i64| #[trigger] cur.resolved.contains_key(x) implies resolved.contains_key(x)
                            && cur.resolved[x] == resolved[x] by {
                            assert(prev.resolved.contains_key(x));
                            assert(prev.resolved.dom().contains(x) && resolved.dom().contains(x));
                            assert(prev.resolved[x] == resolved[x]);
                            assert(cur.resolved[x] == prev.resolved[x]);
                        }
                    }
                }
            }
        }
    }
}

/// Whether link `l` lists problem `e` with a recovery that `resolved` records at `t`.
pub open spec fn closed_by_known_recovery(l: EventLink, e: i64, t: i64, resolved: Map<i64, i64>) -> bool {
    &&& field_i64(l.eventid@) == Some(e)
    &&& field_i64(l.r_eventid@) is Some
    &&& resolved.contains_key(field_i64(l.r_eventid@)->0)
    &&& resolved[field_i64(l.r_eventid@)->0] == t
}

/// Every update of the first pass closes a listed problem at the clock of
/// its own recovery, as the known recoveries recorded it.
pub proof fn lemma_match_update_comes_from_recovery(links: Seq<EventLink>, resolved: Map<i64, i64>, k: int)
    requires
        resolved.dom().finite(),
        0 <= k < match_links(links, resolved).updates.len(),
    ensures
        exists|i: int|
            0 <= i < links.len() && #[trigger] closed_by_known_recovery(
                links[i],
                match_links(links, resolved).updates[k].0,
                match_links(links, resolved).updates[k].1,
                resolved,
            ),
    decreases links.len(),
{
    let t = links.drop_last();
    let prev = match_links(t, resolved);
    let cur = match_links(links, resolved);
    lemma_match_uses_each_recovery_once(t, resolved);
    if k < prev.updates.len() {
        lemma_match_update_comes_from_recovery(t, resolved, k);
        assert(cur.updates[k] == prev.updates[k]);
        let i = choose|i: int|
            0 <= i < t.len() && #[trigger] closed_by_known_recovery(
                t[i],
                prev.updates[k].0,
                prev.updates[k].1,
                resolved,
            );
        assert(links[i] == t[i]);
        assert(closed_by_known_recovery(links[i], cur.updates[k].0, cur.updates[k].1, resolved));
    } else {
        let l = links.last();
        let r = field_i64(l.r_eventid@)->0;
        assert(prev.resolved.contains_key(r));
        assert(prev.resolved.dom().contains(r) && resolved.dom().contains(r));
        assert(links[links.len() - 1] == l);
        assert(closed_by_known_recovery(links[links.len() - 1], cur.updates[k].0, cur.updates[k].1, resolved));
    }
}

/// The second pass only takes awaited recoveries off the list, one at most
/// per update it produces, and never changes the updates already found.
pub proof fn lemma_lookup_uses_each_recovery_once(
    replies: Seq<EventClock>,
    to_get: Map<i64, i64>,
    updates: Seq<(i64, i64)>,
)
    requires
        to_get.dom().finite(),
    ensures
        complete_lookups(replies, to_get, updates).to_get.submap_of(to_get),
        complete_lookups(replies, to_get, updates).to_get.dom().finite(),
        complete_lookups(replies, to_get, updates).updates.len() - updates.len() + complete_lookups(
            replies,
            to_get,
            updates,
        ).to_get.len() <= to_get.len(),
        complete_lookups(replies, to_get, updates).updates.len() >= updates.len(),
        forall|i: int| 0 <= i < updates.len() ==> #[trigger] complete_lookups(replies, to_get, updates).updates[i]
            == updates[i],
    decreases replies.len(),
{
    if replies.len() > 0 {
        lemma_lookup_uses_each_recovery_once(replies.drop_last(), to_get, updates);
        let prev = complete_lookups(replies.drop_last(), to_get, updates);
        let cur = complete_lookups(replies, to_get, updates);
        let c = replies.last();
        if let Some(r) = field_i64(c.eventid@) {
            if prev.to_get.contains_key(r) {
                assert(cur.to_get == prev.to_get.remove(r));
                assert(cur.to_get.dom() =~= prev.to_get.dom().remove(r));
                assert forall|x: i64| #[trigger] cur.to_get.contains_key(x) implies to_get.contains_key(x)
                    && cur.to_get[x] == to_get[x] by {
                    assert(prev.to_get.contains_key(x));
                    assert(prev.to_get.dom().contains(x) && to_get.dom().contains(x));
                    assert(prev.to_get[x] == to_get[x]);
                    assert(cur.to_get[x] == prev.to_get[x]);
                }
                assert forall|i: int| 0 <= i < updates.len() implies #[trigger] cur.updates[i]
                    == updates[i] by {
                    assert(prev.updates[i] == updates[i]);
                }
            }
        }
    }
}

/// Whether reply `c` is the recovery of an awaited problem `e` (as `to_get`
/// records it) and carries the clock `t`.
pub open spec fn closed_by_fetched_recovery(c: EventClock, e: i64, t: i64, to_get: Map<i64, i64>) -> bool {
    &&& field_i64(c.eventid@) is Some
    &&& to_get.contains_key(field_i64(c.eventid@)->0)
    &&& to_get[field_i64(c.eventid@)->0] == e
    &&& field_i64(c.clock@) == Some(t)
}

/// Every update the second pass adds closes an awaited problem at the clock
/// of the fetched recovery event it was waiting for.
pub proof fn lemma_lookup_update_comes_from_reply(
    replies: Seq<EventClock>,
    to_get: Map<i64, i64>,
    updates: Seq<(i64, i64)>,
    k: int,
)
    requires
        to_get.dom().finite(),
        updates.len() <= k < complete_lookups(replies, to_get, updates).updates.len(),
    ensures
        exists|i: int|
            0 <= i < replies.len() && #[trigger] closed_by_fetched_recovery(
                replies[i],
                complete_lookups(replies, to_get, updates).updates[k].0,
                complete_lookups(replies, to_get, updates).updates[k].1,
                to_get,
            ),
    decreases replies.len(),
{
    let t = replies.drop_last();
    let prev = complete_lookups(t, to_get, updates);
    let cur = complete_lookups(replies, to_get, updates);
    lemma_lookup_uses_each_recovery_once(t, to_get, updates);
    if k < prev.updates.len() {
        lemma_lookup_update_comes_from_reply(t, to_get, updates, k);
        assert(cur.updates[k] == prev.updates[k]);
        let i = choose|i: int|
            0 <= i < t.len() && #[trigger] closed_by_fetched_recovery(
                t[i],
                prev.updates[k].0,
                prev.updates[k].1,
                to_get,
            );
        assert(replies[i] == t[i]);
        assert(closed_by_fetched_recovery(replies[i], cur.updates[k].0, cur.updates[k].1, to_get));
    } else {
        let c = replies.last();
        let r = field_i64(c.eventid@)->0;
        assert(prev.to_get.contains_key(r));
        assert(prev.to_get.dom().contains(r) && to_get.dom().contains(r));
        assert(replies[replies.len() - 1] == c);
        assert(closed_by_fetched_recovery(replies[replies.len() - 1], cur.updates[k].0, cur.updates[k].1, to_get));
    }
}

/// Whether reply `i` names a recovery that is awaited when it arrives (it is
/// in `to_get` and no earlier reply named it) and carries a clock that reads.
pub open spec fn answers_awaited(replies: Seq<EventClock>, to_get: Map<i64, i64>, i: int) -> bool {
    &&& field_i64(replies[i].eventid@) is Some
    &&& to_get.contains_key(field_i64(replies[i].eventid@)->0)
    &&& forall|j: int| 0 <= j < i ==> field_i64(replies[j].eventid@) != field_i64(replies[i].eventid@)
    &&& field_i64(replies[i].clock@) is Some
}

proof fn lemma_lookup_awaiting(replies: Seq<EventClock>, to_get: Map<i64, i64>, updates: Seq<(i64, i64)>)
    ensures
        forall|r: i64|
            #[trigger] complete_lookups(replies, to_get, updates).to_get.contains_key(r) <==> (
            to_get.contains_key(r) && forall|j: int|
                0 <= j < replies.len() ==> field_i64(replies[j].eventid@) != Some(r)),
        forall|r: i64|
            #[trigger] complete_lookups(replies, to_get, updates).to_get.contains_key(r) ==> complete_lookups(
                replies,
                to_get,
                updates,
            ).to_get[r] == to_get[r],
    decreases replies.len(),
{
    if replies.len() > 0 {
        let t = replies.drop_last();
        lemma_lookup_awaiting(t, to_get, updates);
        let n = replies.len() - 1;
        assert forall|j: int| 0 <= j < t.len() implies t[j] == replies[j] by {}
        assert(replies.last() == replies[n]);
        let prev = complete_lookups(t, to_get, updates);
        let cur = complete_lookups(replies, to_get, updates);
        assert forall|r: i64| #[trigger] cur.to_get.contains_key(r) <==> (to_get.contains_key(r) && forall|j: int|
            0 <= j < replies.len() ==> field_i64(replies[j].eventid@) != Some(r)) by {
            if cur.to_get.contains_key(r) {
                assert(prev.to_get.contains_key(r));
                assert forall|j: int| 0 <= j < replies.len() implies field_i64(replies[j].eventid@) != Some(r) by {
                    if j < n {
                        assert(field_i64(t[j].eventid@) != Some(r));
                    }
                }
            }
            if to_get.contains_key(r) && forall|j: int|
                0 <= j < replies.len() ==> field_i64(replies[j].eventid@) != Some(r) {
                assert forall|j: int| 0 <= j < t.len() implies field_i64(t[j].eventid@) != Some(r) by {
                    assert(field_i64(replies[j].eventid@) != Some(r));
                }
                assert(prev.to_get.contains_key(r));
                assert(field_i64(replies[n].eventid@) != Some(r));
            }
        }
    }
}

/// The lookup pass misses no answer: every reply that names a recovery
/// still awaited when it arrives and carries a clock closes that recovery's
/// problem at that clock, and the updates made before are kept in front.
pub proof fn lemma_lookup_closes_every_answer(
    replies: Seq<EventClock>,
    to_get: Map<i64, i64>,
    updates: Seq<(i64, i64)>,
)
    ensures
        complete_lookups(replies, to_get, updates).updates.len() >= updates.len(),
        complete_lookups(replies, to_get, updates).updates.subrange(0, updates.len() as int) == updates,
        forall|i: int|
            0 <= i < replies.len() && #[trigger] answers_awaited(replies, to_get, i) ==> complete_lookups(
                replies,
                to_get,
                updates,
            ).updates.contains(
                (to_get[field_i64(replies[i].eventid@)->0], field_i64(replies[i].clock@)->0),
            ),
    decreases replies.len(),
{
    if replies.len() > 0 {
        let t = replies.drop_last();
        let n = replies.len() - 1;
        lemma_lookup_closes_every_answer(t, to_get, updates);
        lemma_lookup_awaiting(t, to_get, updates);
        assert forall|j: int| 0 <= j < t.len() implies t[j] == replies[j] by {}
        assert(replies.last() == replies[n]);
        let prev = complete_lookups(t, to_get, updates);
        let cur = complete_lookups(replies, to_get, updates);
        assert(prev.updates.is_prefix_of(cur.updates));
        assert(cur.updates.subrange(0, updates.len() as int) =~= prev.updates.subrange(0, updates.len() as int));
        assert forall|i: int|
            0 <= i < replies.len() && #[trigger] answers_awaited(replies, to_get, i) implies cur.updates.contains(
                (to_get[field_i64(replies[i].eventid@)->0], field_i64(replies[i].clock@)->0),
            ) by {
            let x = (to_get[field_i64(replies[i].eventid@)->0], field_i64(replies[i].clock@)->0);
            if i < n {
                assert(answers_awaited(t, to_get, i));
                let k = choose|k: int| 0 <= k < prev.updates.len() && prev.updates[k] == x;
                assert(cur.updates[k] == x);
            } else {
                let r = field_i64(replies[n].eventid@)->0;
                assert forall|j: int| 0 <= j < t.len() implies field_i64(t[j].eventid@) != Some(r) by {
                    assert(field_i64(replies[j].eventid@) != field_i64(replies[n].eventid@));
                }
                assert(prev.to_get.contains_key(r));
                assert(cur.updates[cur.updates.len() - 1] == x);
            }
        }
    }
}

/// Whether a stored problem's ids both read and it names a recovery
/// (recovery id at least 1).
pub open spec fn link_names_recovery(l: EventLink) -> bool {
    &&& field_i64(l.eventid@) is Some
    &&& field_i64(l.r_eventid@) is Some
    &&& field_i64(l.r_eventid@)->0 >= 1
}

/// The first pass leaves no recovered problem aside: each problem that
/// names a recovery is either closed by an update or has its recovery put
/// on the list of clocks to fetch.
pub proof fn lemma_match_handles_every_link(links: Seq<EventLink>, resolved: Map<i64, i64>)
    ensures
        forall|i: int|
            0 <= i < links.len() && #[trigger] link_names_recovery(links[i]) ==> {
                ||| match_links(links, resolved).to_get.contains_key(field_i64(links[i].r_eventid@)->0)
                ||| exists|k: int|
                    0 <= k < match_links(links, resolved).updates.len() && #[trigger] match_links(
                        links,
                        resolved,
                    ).updates[k].0 == field_i64(links[i].eventid@)->0
            },
    decreases links.len(),
{
    if links.len() > 0 {
        let t = links.drop_last();
        let n = links.len() - 1;
        lemma_match_handles_every_link(t, resolved);
        assert forall|j: int| 0 <= j < t.len() implies t[j] == links[j] by {}
        assert(links.last() == links[n]);
        let prev = match_links(t, resolved);
        let cur = match_links(links, resolved);
        assert forall|i: int| 0 <= i < links.len() && #[trigger] link_names_recovery(links[i]) implies {
            ||| cur.to_get.contains_key(field_i64(links[i].r_eventid@)->0)
            ||| exists|k: int| 0 <= k < cur.updates.len() && #[trigger] cur.updates[k].0 == field_i64(links[i].eventid@)->0
        } by {
            if i < n {
                assert(link_names_recovery(t[i]));
                let r = field_i64(links[i].r_eventid@)->0;
                if !prev.to_get.contains_key(r) {
                    let k = choose|k: int| 0 <= k < prev.updates.len() && #[trigger] prev.updates[k].0 == field_i64(t[i].eventid@)->0;
                    assert(cur.updates[k] == prev.updates[k]);
                }
            } else {
                let r = field_i64(links[n].r_eventid@)->0;
                if prev.resolved.contains_key(r) {
                    assert(cur.updates[cur.updates.len() - 1].0 == field_i64(links[n].eventid@)->0);
                }
            }
        }
    }
}

} // verus!
