use std::collections::HashMap;

use zbx_events::api_zbx::{HostStatus, ZbxHost};
use zbx_events::api_zbx::unzip_hosts;
use zbx_events::groups::{load_group_query, window_start, GroupInfo, HostsInfo, LoadGroup, LAST_DAYS};
use zbx_events::json::JsonField;
use zbx_events::models::{Severity, Status};
use zbx_events::resolution::{
    complete_resolutions, finish_lookup, match_resolutions, plan_resolutions, EventClock, EventLink, ResolutionPlan,
};
use zbx_events::task::{RawEvent, TaskState, LIMIT};

fn s(x: &str) -> JsonField {
    JsonField::Str(x.to_string())
}

fn problem(eid: i64, clock: i64, r_eid: i64, severity: &str) -> RawEvent {
    RawEvent {
        eventid: s(&eid.to_string()),
        clock: s(&clock.to_string()),
        value: s("1"),
        r_eventid: s(&r_eid.to_string()),
        severity: s(severity),
        name: s(&format!("trigger {eid}")),
        opdata: s("op"),
        host: s("host-a"),
    }
}

fn recovery(eid: i64, clock: i64) -> RawEvent {
    RawEvent {
        eventid: s(&eid.to_string()),
        clock: s(&clock.to_string()),
        value: s("0"),
        r_eventid: s("0"),
        severity: JsonField::Other,
        name: JsonField::Other,
        opdata: JsonField::Other,
        host: JsonField::Other,
    }
}

fn meta() -> GroupInfo {
    GroupInfo::new(100, 5, HostsInfo::new(vec![]), 0)
}

#[test]
fn short_page_pairs_every_problem() {
    let mut st = TaskState::new();
    let page = vec![problem(10, 200, 11, "4"), recovery(11, 500), problem(12, 300, 0, "9")];
    assert!(!st.page_is_malformed(&page));
    let out = st.absorb_page(page);
    assert_eq!(out.length, 3);
    assert_eq!(out.next_eventid, Some(13));
    assert_eq!(out.next_from, Some(300));
    let rows = out.rows.as_ref().unwrap();
    assert_eq!(rows.len(), 2);
    assert_eq!((rows[0].eventid, rows[0].end_time, rows[0].status), (10, Some(500), Status::Resolved));
    assert_eq!(rows[0].severity, Some(Severity::High));
    assert_eq!(rows[0].host, "host-a");
    assert_eq!(rows[0].trigger, "trigger 10");
    assert_eq!(rows[0].start_time, 200);
    assert_eq!((rows[1].eventid, rows[1].end_time, rows[1].status), (12, None, Status::Ongoing));
    assert_eq!(rows[1].severity, None);
    assert!(st.problems.is_empty());
    assert!(st.resolved.is_empty());

    let mut m = meta();
    let act = st.finish_round(&mut m, &out, true);
    assert!(act.stop);
    assert!(act.resolved_to_update.is_none());
    assert_eq!((m.last_event, m.last_start), (13, 300));
}

#[test]
fn unmatched_recoveries_are_handed_out() {
    let mut st = TaskState::new();
    let out = st.absorb_page(vec![recovery(21, 900), recovery(22, 901)]);
    assert!(out.rows.is_none());
    assert_eq!(st.resolved.len(), 2);
    let mut m = meta();
    let act = st.finish_round(&mut m, &out, false);
    let drained = act.resolved_to_update.unwrap();
    assert_eq!(drained, HashMap::from([(21, 900), (22, 901)]));
    assert!(st.resolved.is_empty());
    assert!(act.stop);
}

#[test]
fn failed_insert_changes_nothing() {
    let mut st = TaskState::new();
    let out = st.absorb_page(vec![problem(1, 10, 0, "1"), recovery(7, 70)]);
    let mut m = meta();
    let act = st.finish_round(&mut m, &out, false);
    assert!(!act.stop);
    assert!(act.resolved_to_update.is_none());
    assert_eq!((m.last_event, m.last_start), (5, 100));
    assert_eq!(st.resolved.len(), 1);
}

fn full_page(mut head: Vec<RawEvent>) -> Vec<RawEvent> {
    let mut id = 100_000;
    while head.len() < LIMIT {
        head.push(recovery(id, id));
        id += 1;
    }
    head
}

#[test]
fn full_page_requeues_and_drops_one() {
    let mut st = TaskState::new();
    let page = full_page(vec![problem(1, 10, 50, "2"), problem(2, 20, 100_000, "3")]);
    let out = st.absorb_page(page);
    assert_eq!(out.length, LIMIT);
    let rows = out.rows.as_ref().unwrap();
    assert_eq!(rows.len(), 1);
    assert_eq!((rows[0].eventid, rows[0].end_time), (2, Some(100_000)));
    // The first problem went back to the queue and was then popped once
    // more after the last step of the pass: it is gone.
    assert!(st.problems.is_empty());

    let mut m = meta();
    let act = st.finish_round(&mut m, &out, true);
    assert!(!act.stop);
    assert_eq!(act.resolved_to_update.unwrap().len(), LIMIT - 3);
}

#[test]
fn full_page_keeps_all_but_one_unresolved_problem() {
    let mut st = TaskState::new();
    let out = st.absorb_page(full_page(vec![problem(1, 10, 50, "2"), problem(2, 20, 60, "3")]));
    assert_eq!(out.rows.as_ref().unwrap().len(), 0);
    assert_eq!(st.problems.len(), 1);
    assert_eq!(zbx_events::json::as_i64(&st.problems[0].eventid), Some(2));
}

#[test]
fn malformed_pages_are_detected() {
    let st = TaskState::new();
    let mut bad_value = recovery(1, 1);
    bad_value.value = JsonField::Other;
    assert!(st.page_is_malformed(&vec![bad_value]));
    let mut bad_clock = recovery(1, 1);
    bad_clock.clock = s("soon");
    assert!(st.page_is_malformed(&vec![bad_clock]));
    let mut bad_problem = problem(1, 1, 0, "2");
    bad_problem.opdata = JsonField::Other;
    assert!(st.page_is_malformed(&vec![bad_problem]));
    assert!(st.page_is_malformed(&vec![recovery(i64::MAX, 1)]));
    assert!(!st.page_is_malformed(&vec![recovery(i64::MAX - 1, 1)]));
    // A full page requeues the unresolved problem before reading its other fields.
    let mut waiting = problem(1, 1, 0, "2");
    waiting.opdata = JsonField::Other;
    let mut only = vec![waiting];
    only.push(problem(2, 2, 0, "2"));
    assert!(!st.page_is_malformed(&full_page(only)));
}

#[test]
fn recoveries_matched_then_looked_up() {
    let mut resolved = HashMap::from([(31, 3100), (32, 3200)]);
    let links = vec![
        EventLink { eventid: s("1"), r_eventid: s("31") },
        EventLink { eventid: s("2"), r_eventid: s("40") },
        EventLink { eventid: s("3"), r_eventid: s("0") },
        EventLink { eventid: s("x"), r_eventid: s("32") },
    ];
    let (mut updates, mut to_get) = match_resolutions(&mut resolved, &links);
    assert_eq!(updates, vec![(1, 3100)]);
    assert_eq!(to_get, HashMap::from([(40, 2)]));
    assert_eq!(resolved, HashMap::from([(32, 3200)]));

    let replies = vec![
        EventClock { eventid: s("40"), clock: s("4000") },
        EventClock { eventid: s("41"), clock: s("4100") },
    ];
    complete_resolutions(&mut to_get, &replies, &mut updates);
    assert_eq!(updates, vec![(1, 3100), (2, 4000)]);
    assert!(to_get.is_empty());

    let mut pending = HashMap::from([(50, 5)]);
    let mut none = Vec::new();
    complete_resolutions(&mut pending, &vec![EventClock { eventid: s("50"), clock: JsonField::Other }], &mut none);
    assert!(none.is_empty());
    assert!(pending.is_empty());
}

#[test]
fn group_state_builders() {
    let all = load_group_query(&LoadGroup::All);
    let one = load_group_query(&LoadGroup::Group("g".to_string()));
    assert!(all.contains("left join events as e on e.host = h.host\n                group by gh.group_name;"));
    assert!(one.contains("h.host\nwhere gh.group_name = $2\n\n                group by"));
    assert_eq!(one.len(), all.len() + "\nwhere gh.group_name = $2\n".len());

    let g = GroupInfo::from_loaded(1000, 41, &vec![(7, 70), (8, 80)]);
    assert_eq!((g.last_start, g.last_event, g.last_change), (1000, 42, 0));
    assert_eq!(g.hosts.get_hostids(), vec![7, 8]);

    let hosts = vec![ZbxHost { host: "h1".to_string(), hostid: 11, status: HostStatus::Enable }];
    let (names, ids) = unzip_hosts(&hosts);
    let info = GroupInfo::for_new_group(500, &ids, 900);
    assert_eq!(names, vec!["h1".to_string()]);
    assert_eq!(ids, vec![11]);
    assert_eq!((info.last_start, info.last_event, info.last_change), (500, 0, 900));
    assert_eq!(info.hosts.hosts[0].last_change, 0);

    assert_eq!(window_start(1_700_000_000), 1_700_000_000 - LAST_DAYS * 86_400);
}

#[test]
fn waiting_problems_keep_their_order() {
    let mut st = TaskState::new();
    let page = full_page(vec![problem(1, 10, 91, "2"), problem(2, 20, 92, "3"), problem(3, 30, 93, "5")]);
    let out = st.absorb_page(page);
    assert_eq!(out.rows.as_ref().unwrap().len(), 0);
    let ids: Vec<Option<i64>> = st.problems.iter().map(|e| zbx_events::json::as_i64(&e.eventid)).collect();
    assert_eq!(ids, vec![Some(2), Some(3)]);

    // The next, shorter page brings the recoveries: both waiting problems close.
    let out = st.absorb_page(vec![recovery(92, 920), recovery(93, 930)]);
    let rows = out.rows.unwrap();
    assert_eq!(rows.iter().map(|r| (r.eventid, r.end_time)).collect::<Vec<_>>(), vec![(2, Some(920)), (3, Some(930))]);
    assert!(st.problems.is_empty());
}

#[test]
fn resolution_plans() {
    // the request for the stored problems failed: nothing to do, failure reported
    let mut resolved = HashMap::from([(31, 3100)]);
    let plan = plan_resolutions(&mut resolved, None);
    assert!(!plan.succeeded());
    assert!(matches!(plan, ResolutionPlan::Failed));
    assert_eq!(resolved, HashMap::from([(31, 3100)]));

    // every recovery is known: no second request
    let links = vec![EventLink { eventid: s("1"), r_eventid: s("31") }];
    match plan_resolutions(&mut resolved, Some(&links)) {
        ResolutionPlan::Close(updates) => assert_eq!(updates, vec![(1, 3100)]),
        _ => panic!("expected no lookup"),
    }
    assert!(resolved.is_empty());

    // a missing clock asks for a second request
    let links = vec![EventLink { eventid: s("2"), r_eventid: s("40") }];
    let plan = plan_resolutions(&mut resolved, Some(&links));
    assert!(plan.succeeded());
    let (updates, to_get) = match plan {
        ResolutionPlan::Lookup(updates, to_get) => (updates, to_get),
        _ => panic!("expected a lookup"),
    };
    assert!(updates.is_empty());
    assert_eq!(to_get, HashMap::from([(40, 2)]));
    let replies = vec![EventClock { eventid: s("40"), clock: s("4000") }];
    assert_eq!(finish_lookup(updates.clone(), to_get.clone(), Some(&replies)), vec![(2, 4000)]);
    assert!(finish_lookup(updates, to_get, None).is_empty());
}
