use zbx_events::api_zbx::{
    de_i64_from_str_or_num, unzip_hosts, AuditAction, AuditDetails, DataErrorApiZbx, DecodeError,
    last_group, FieldName, HostStatus, ZbxApiResourceType, ZbxError, ZbxErrorKind, ZbxGroup, ZbxHost,
    ZbxResourceOp, ZbxResponse,
};
use zbx_events::json::{as_i64, as_str, JsonField};
use zbx_events::repository::group_is_new;
use zbx_events::zabbix_api::ZbxApi;

fn s(x: &str) -> JsonField {
    JsonField::Str(x.to_string())
}

fn n(x: &str) -> JsonField {
    JsonField::Num(x.to_string())
}

#[test]
fn json_field_readers() {
    assert_eq!(as_i64(&s("12")), Some(12));
    assert_eq!(as_i64(&n("12")), None);
    assert_eq!(as_i64(&JsonField::Other), None);
    assert_eq!(as_i64(&s("x")), None);
    assert_eq!(as_str(&s("abc")), Some("abc"));
    assert_eq!(as_str(&n("1")), None);
}

#[test]
fn flexible_integers() {
    assert_eq!(de_i64_from_str_or_num(&s("-5")), Ok(-5));
    assert_eq!(de_i64_from_str_or_num(&n("77")), Ok(77));
    assert_eq!(de_i64_from_str_or_num(&n("1.5")), Err(DecodeError::NotAnInteger));
    assert!(de_i64_from_str_or_num(&n("9223372036854775808")).is_err());
    assert!(de_i64_from_str_or_num(&JsonField::Other).is_err());
}

#[test]
fn audit_actions() {
    assert_eq!(AuditAction::from_json(&s("0")), Some(AuditAction::Add));
    assert_eq!(AuditAction::from_json(&n("1")), Some(AuditAction::Update));
    assert_eq!(AuditAction::from_json(&s("2")), Some(AuditAction::Delete));
    assert_eq!(AuditAction::from_json(&s("3")), None);
    assert_eq!(AuditAction::from_json(&n("2.0")), None);
    assert_eq!(AuditAction::from_json(&JsonField::Other), None);
}

#[test]
fn resource_op_errors() {
    assert_eq!(ZbxResourceOp::from_json("[]").unwrap_err(), DecodeError::Empty);
    assert_eq!(ZbxResourceOp::from_json(r#"["rename","x"]"#).unwrap_err(), DecodeError::UnknownVariant);
    assert_eq!(
        ZbxResourceOp::from_json(r#"["update"]"#).unwrap_err(),
        DecodeError::MissingField(FieldName::New)
    );
    assert_eq!(
        ZbxResourceOp::from_json(r#"["update","a"]"#).unwrap_err(),
        DecodeError::MissingField(FieldName::Old)
    );
    assert_eq!(
        ZbxResourceOp::from_json(r#"["add","a","b"]"#).unwrap_err(),
        DecodeError::TrailingElements
    );
    assert_eq!(ZbxResourceOp::from_json(r#"["add", 5]"#).unwrap_err(), DecodeError::Syntax);
    assert_eq!(ZbxResourceOp::from_json(r#"{"add": "x"}"#).unwrap_err(), DecodeError::Syntax);
}

#[test]
fn audit_details_insert_replaces() {
    let mut d = AuditDetails::new();
    assert!(d.is_empty());
    d.insert("k".to_string(), ZbxResourceOp::Add { value: "1".to_string() });
    d.insert("j".to_string(), ZbxResourceOp::Add { value: "2".to_string() });
    d.insert("k".to_string(), ZbxResourceOp::Delete { value: "3".to_string() });
    assert_eq!(d.len(), 2);
    match d.get("k") {
        Some(ZbxResourceOp::Delete { value }) => assert_eq!(value, "3"),
        other => panic!("{other:?}"),
    }
}

#[test]
fn resource_types() {
    let all = [
        (ZbxApiResourceType::User, "0"),
        (ZbxApiResourceType::Host, "4"),
        (ZbxApiResourceType::Action, "5"),
        (ZbxApiResourceType::UserGroup, "11"),
        (ZbxApiResourceType::Trigger, "13"),
        (ZbxApiResourceType::HostGroup, "14"),
        (ZbxApiResourceType::Item, "15"),
        (ZbxApiResourceType::Proxy, "26"),
        (ZbxApiResourceType::Template, "30"),
    ];
    for (t, text) in all {
        assert_eq!(t.code_text(), text);
        assert_eq!(ZbxApiResourceType::from_json(&s(text)), Some(t));
        assert_eq!(ZbxApiResourceType::from_json(&n(text)), Some(t));
        assert_eq!(ZbxApiResourceType::from_code(text.parse().unwrap()), Some(t));
    }
    assert_eq!(ZbxApiResourceType::from_code(1), None);
    assert_eq!(ZbxApiResourceType::from_json(&s("+4")), Some(ZbxApiResourceType::Host));
    assert_eq!(ZbxApiResourceType::from_json(&n("-4")), None);
    assert_eq!(ZbxApiResourceType::from_json(&s("abc")), None);
}

#[test]
fn error_kinds_and_replies() {
    assert_eq!(ZbxErrorKind::from(-32600), ZbxErrorKind::InvalidRequest);
    assert_eq!(ZbxErrorKind::from(-32601), ZbxErrorKind::MethodNotFound);
    assert_eq!(ZbxErrorKind::from(-32602), ZbxErrorKind::InvalidParams);
    assert_eq!(ZbxErrorKind::from(-32500), ZbxErrorKind::ApplicationError);
    assert_eq!(ZbxErrorKind::from(-1), ZbxErrorKind::Unknown(-1));
    assert_eq!(ZbxErrorKind::InvalidParams.description(), "invalid params");

    let ok: ZbxResponse<u8> = ZbxResponse::Success { jsonrpc: "2.0".to_string(), result: 3, id: 1 };
    assert_eq!(ok.into_result().unwrap(), 3);
    let failed: ZbxResponse<u8> = ZbxResponse::Failure {
        jsonrpc: "2.0".to_string(),
        error: DataErrorApiZbx { code: -32602, message: "bad".to_string(), data: Some("why".to_string()) },
        id: 1,
    };
    match failed.into_result() {
        Err(ZbxError::Api { kind, message, data }) => {
            assert_eq!(kind, ZbxErrorKind::InvalidParams);
            assert_eq!(message, "bad");
            assert_eq!(data.as_deref(), Some("why"));
        }
        other => panic!("{other:?}"),
    }
}

#[test]
fn hosts_unzip_in_order() {
    let hosts = vec![
        ZbxHost { host: "a".to_string(), hostid: 1, status: HostStatus::Enable },
        ZbxHost { host: "b".to_string(), hostid: 2, status: HostStatus::Disable },
    ];
    let (names, ids) = unzip_hosts(&hosts);
    assert_eq!(names, vec!["a".to_string(), "b".to_string()]);
    assert_eq!(ids, vec![1, 2]);
}

#[test]
fn event_request_builder() {
    let mut ev = ZbxApi::get_events();
    assert!(ev.asc);
    assert_eq!(ev.limit, 1000);
    assert_eq!(ev.sort_order(), "ASC");
    assert_eq!(ev.until_or(9), 9);
    ev.hostids(vec![1, 2]);
    ev.until(50);
    ev.from(10);
    ev.eventid(3);
    ev.limit(2000);
    ev.desc();
    assert_eq!(ev.hostids, Some(vec![1, 2]));
    assert_eq!((ev.from, ev.eventid, ev.until, ev.limit), (Some(10), Some(3), Some(50), 2000));
    assert_eq!(ev.sort_order(), "DESC");
    assert_eq!(ev.until_or(9), 50);
    ev.asc();
    assert!(ev.asc);
}

#[test]
fn last_setter_call_wins() {
    let mut ev = ZbxApi::get_events();
    ev.limit(5);
    ev.hostids(vec![7]);
    ev.desc();
    ev.from(1);
    ev.hostids(vec![8, 9]);
    ev.asc();
    ev.from(2);
    ev.limit(6);
    ev.desc();
    assert_eq!(ev.hostids, Some(vec![8, 9]));
    assert_eq!(ev.from, Some(2));
    assert_eq!(ev.limit, 6);
    assert_eq!(ev.eventid, None);
    assert_eq!(ev.until, None);
    assert_eq!(ev.sort_order(), "DESC");
}

#[test]
fn last_listed_group() {
    let g = |n: &str, id: i64| ZbxGroup { name: n.to_string(), groupid: id };
    let picked = last_group(vec![g("a", 1), g("b", 2)]).unwrap();
    assert_eq!((picked.name.as_str(), picked.groupid), ("b", 2));
    assert!(last_group(Vec::new()).is_none());
}

#[test]
fn new_groups_are_detected() {
    let known = vec!["core".to_string(), "edge".to_string()];
    assert!(!group_is_new(&known, "edge"));
    assert!(group_is_new(&known, "Edge"));
    assert!(group_is_new(&Vec::new(), "core"));
}
