use std::{fmt, marker::PhantomData};

use serde::{
    de::{MapAccess, Visitor},
    Deserialize, Deserializer,
};
use serde_json::Value;
use zbx_events::api_zbx::{
    audit_logs_from_fields, AuditAction, DecodeError, FieldName, ZbxAuditLog, ZbxResourceOp,
};
use zbx_events::json::{JsonField, JsonMember};

/// The members of a JSON object in document order, repeated keys kept.
struct Ordered<T>(Vec<(String, T)>);

struct OrderedVisitor<T>(PhantomData<T>);

impl<'de, T: Deserialize<'de>> Visitor<'de> for OrderedVisitor<T> {
    type Value = Ordered<T>;

    fn expecting(&self, f: &mut fmt::Formatter) -> fmt::Result {
        f.write_str("a JSON object")
    }

    fn visit_map<A: MapAccess<'de>>(self, mut map: A) -> Result<Ordered<T>, A::Error> {
        let mut members = Vec::new();
        while let Some(member) = map.next_entry::<String, T>()? {
            members.push(member);
        }
        Ok(Ordered(members))
    }
}

impl<'de, T: Deserialize<'de>> Deserialize<'de> for Ordered<T> {
    fn deserialize<D: Deserializer<'de>>(deserializer: D) -> Result<Self, D::Error> {
        deserializer.deserialize_map(OrderedVisitor(PhantomData))
    }
}

fn json_members(members: Vec<(String, Value)>) -> Vec<JsonMember> {
    members
        .into_iter()
        .map(|(key, value)| {
            let string_arrays = match &value {
                Value::String(s) => serde_json::from_str::<Ordered<Vec<String>>>(s).ok().map(|o| o.0),
                _ => None,
            };
            let value = match value {
                Value::String(s) => JsonField::Str(s),
                Value::Number(n) => JsonField::Num(n.to_string()),
                _ => JsonField::Other,
            };
            JsonMember { key, value, string_arrays }
        })
        .collect()
}

fn audit_log_from_str(text: &str) -> Result<ZbxAuditLog, DecodeError> {
    match serde_json::from_str::<Ordered<Value>>(text) {
        Ok(Ordered(members)) => ZbxAuditLog::from_fields(&json_members(members)),
        Err(_) => Err(DecodeError::Syntax),
    }
}

fn audit_logs_from_str(text: &str) -> Result<Vec<ZbxAuditLog>, DecodeError> {
    match serde_json::from_str::<Vec<Ordered<Value>>>(text) {
        Ok(list) => audit_logs_from_fields(&list.into_iter().map(|Ordered(m)| json_members(m)).collect()),
        Err(_) => Err(DecodeError::Syntax),
    }
}

#[test]
fn test_deserialize_add() {
    let json = r#"["add", "192.168.1.10"]"#;
    let result = ZbxResourceOp::from_json(json).unwrap();

    match result {
        ZbxResourceOp::Add { value } => assert_eq!(value, "192.168.1.10"),
        other => panic!("esperaba Add, obtuve {:?}", other),
    }
}

#[test]
fn test_deserialize_update() {
    let json = r#"["update", "servidor-nuevo", "servidor-viejo"]"#;
    let result = ZbxResourceOp::from_json(json).unwrap();

    match result {
        ZbxResourceOp::Update { new, old } => {
            assert_eq!(new, "servidor-nuevo");
            assert_eq!(old, "servidor-viejo");
        }
        other => panic!("esperaba Update, obtuve {:?}", other),
    }
}

#[test]
fn test_deserialize_delete() {
    let json = r#"["delete", "15"]"#;
    let result = ZbxResourceOp::from_json(json).unwrap();

    match result {
        ZbxResourceOp::Delete { value } => assert_eq!(value, "15"),
        other => panic!("esperaba Delete, obtuve {:?}", other),
    }
}

#[test]
fn test_deserialize_invalid_variant() {
    let json = r#"["rename", "x"]"#;
    let result = ZbxResourceOp::from_json(json);

    assert!(result.is_err());
}

#[test]
fn test_deserialize_missing_update_fields() {
    let json = r#"["update", "solo-uno"]"#;
    let result = ZbxResourceOp::from_json(json);

    assert!(result.is_err());
}

#[test]
fn test_deserialize_delete_without_value() {
    let json = r#"["delete"]"#;
    let result = ZbxResourceOp::from_json(json);

    assert!(result.is_err());
}

#[test]
fn test_deserialize_empty_array() {
    let json = r#"[]"#;
    let result = ZbxResourceOp::from_json(json);

    assert!(result.is_err());
}

#[test]
fn test_deserialize_update_rename() {
    let json = r#"
        {
            "auditid": "cmsze1uj20001o9iyi4tluziv",
            "userid": "1",
            "username": "admin",
            "clock": "1787101432",
            "ip": "172.30.0.158",
            "action": "1",
            "resourcetype": "4",
            "resourceid": "10715",
            "resource_cuid": "0",
            "resourcename": "CA-GP-",
            "recordsetid": "cmsze1uj10000o9iyn07fcaav",
            "details": "{\"host.host\":[\"update\",\"CA-GP\",\"CA-GP-\"],\"host.name\":[\"update\",\"CA-GP\",\"CA-GP-\"]}"
        }
        "#;

    let log = audit_log_from_str(json).unwrap();

    assert_eq!(log.resourceid, 10715);
    assert_eq!(log.details.len(), 2);

    match log.details.get("host.host") {
        Some(ZbxResourceOp::Update { new, old }) => {
            assert_eq!(new, "CA-GP");
            assert_eq!(old, "CA-GP-");
        }
        other => panic!("esperaba Update en host.host, obtuve {:?}", other),
    }

    match log.details.get("host.name") {
        Some(ZbxResourceOp::Update { new, old }) => {
            assert_eq!(new, "CA-GP");
            assert_eq!(old, "CA-GP-");
        }
        other => panic!("esperaba Update en host.name, obtuve {:?}", other),
    }
}

#[test]
fn test_deserialize_add_with_empty_details() {
    let json = r#"
        {
            "auditid": "cmshr5b2q000fe1iyv5wgabfc",
            "userid": "1",
            "username": "admin",
            "clock": "1786035037",
            "ip": "172.30.0.1",
            "action": "0",
            "resourcetype": "4",
            "resourceid": "10973",
            "resource_cuid": "0",
            "resourcename": "Nodo_Campo-De-Las-Carreras-1497_Y_M-Lillo",
            "recordsetid": "cmshr5b2q000ee1iyek29jyuz",
            "details": ""
        }
        "#;

    let log = audit_log_from_str(json).unwrap();

    assert_eq!(log.resourceid, 10973);
    assert!(log.details.is_empty());
}

#[test]
fn test_deserialize_delete_with_empty_details() {
    let json = r#"
        {
            "auditid": "cmrzhoiiq001pshiy9hi0dvf8",
            "userid": "1",
            "username": "admin",
            "clock": "1784930746",
            "ip": "172.30.0.158",
            "action": "2",
            "resourcetype": "4",
            "resourceid": "10719",
            "resource_cuid": "0",
            "resourcename": "Teleste-01",
            "recordsetid": "cmrzhoieu0000shiy4weab5kx",
            "details": ""
        }
        "#;

    let log = audit_log_from_str(json).unwrap();

    assert_eq!(log.resourceid, 10719);
    assert!(log.details.is_empty());
}

#[test]
fn test_deserialize_ignores_unknown_fields() {
    let json = r#"
        {
            "auditid": "xyz",
            "userid": "1",
            "clock": "123456",
            "action": "1",
            "resourcetype": "4",
            "resourceid": "999",
            "resourcename": "algo",
            "details": ""
        }
        "#;

    let log = audit_log_from_str(json).unwrap();
    assert_eq!(log.resourceid, 999);
}

#[test]
fn test_deserialize_missing_resourceid_fails() {
    let json = r#"
        {
            "details": ""
        }
        "#;

    let result = audit_log_from_str(json);
    assert!(result.is_err());
}

#[test]
fn test_deserialize_missing_details_fails() {
    let json = r#"
        {
            "resourceid": "999"
        }
        "#;

    let result = audit_log_from_str(json);
    assert!(result.is_err());
}

#[test]
fn test_deserialize_full_array_response() {
    let json = r#"
        [
            {
                "resourceid": "10953",
                "action": "1",
                "details": "{\"host.host\":[\"update\",\"Teleste-02\",\"Teleste-021\"],\"host.name\":[\"update\",\"Teleste-02\",\"Teleste-021\"]}"
            },
            {
                "resourceid": "10719",
                "action": "2",
                "details": ""
            }
        ]
        "#;

    let logs = audit_logs_from_str(json).unwrap();

    assert_eq!(logs.len(), 2);
    assert_eq!(logs[0].resourceid, 10953);
    assert_eq!(logs[1].resourceid, 10719);
    assert!(logs[1].details.is_empty());
}

#[test]
fn audit_log_field_rules() {
    let log = audit_log_from_str(r#"{"resourceid": 42, "action": 2, "details": "  ", "clock": 7}"#).unwrap();
    assert_eq!(log.resourceid, 42);
    assert_eq!(log.action, AuditAction::Delete);
    assert_eq!(log.clock, 7);
    assert_eq!(log.resourcename, "");
    assert!(log.details.is_empty());

    let log = audit_log_from_str(r#"{"resourceid": "1", "action": "0", "details": "{\"a\":[\"delete\",\"z\"]}"}"#).unwrap();
    assert_eq!(log.clock, 0);
    match log.details.get("a") {
        Some(ZbxResourceOp::Delete { value }) => assert_eq!(value, "z"),
        other => panic!("{other:?}"),
    }
    assert!(log.details.get("b").is_none());

    let err = |t: &str| audit_log_from_str(t).unwrap_err();
    assert_eq!(err(r#"{"details": ""}"#), DecodeError::MissingField(FieldName::ResourceId));
    assert_eq!(err(r#"{"resourceid": "1"}"#), DecodeError::MissingField(FieldName::Details));
    assert_eq!(err(r#"{"resourceid": "1", "details": ""}"#), DecodeError::MissingField(FieldName::Action));
    assert_eq!(err(r#"{"resourceid": "x", "details": ""}"#), DecodeError::InvalidValue(FieldName::ResourceId));
    assert_eq!(err(r#"{"resourceid": "1", "details": 3, "action": "1"}"#), DecodeError::InvalidValue(FieldName::Details));
    assert_eq!(
        err(r#"{"resourceid": "1", "details": "{\"a\":[\"bogus\"]}", "action": "1"}"#),
        DecodeError::InvalidValue(FieldName::Details)
    );
    assert_eq!(err(r#"{"resourceid": "1", "details": "", "action": "9"}"#), DecodeError::InvalidValue(FieldName::Action));
    assert_eq!(err(r#"{"resourceid": "1", "details": "", "action": "1", "clock": true}"#), DecodeError::InvalidValue(FieldName::Clock));
    assert_eq!(
        err(r#"{"resourceid": "1", "details": "", "action": "1", "resourcename": 4}"#),
        DecodeError::InvalidValue(FieldName::ResourceName)
    );
    assert_eq!(err("[1, 2]"), DecodeError::Syntax);
    assert_eq!(err("not json"), DecodeError::Syntax);
}

#[test]
fn repeated_audit_field_refused() {
    let err = |t: &str| audit_log_from_str(t).unwrap_err();
    assert_eq!(
        err(r#"{"resourceid":"1","details":"","action":"0","resourceid":"1"}"#),
        DecodeError::DuplicateField(FieldName::ResourceId)
    );
    assert_eq!(
        err(r#"{"resourceid":"1","details":"","details":"","action":"0"}"#),
        DecodeError::DuplicateField(FieldName::Details)
    );
    assert_eq!(
        err(r#"{"resourceid":"1","details":"","action":"0","action":"0"}"#),
        DecodeError::DuplicateField(FieldName::Action)
    );
    assert_eq!(
        err(r#"{"resourceid":"1","details":"","action":"0","clock":"5","clock":"5"}"#),
        DecodeError::DuplicateField(FieldName::Clock)
    );
    assert_eq!(
        err(r#"{"resourceid":"1","details":"","action":"0","resourcename":"a","resourcename":"a"}"#),
        DecodeError::DuplicateField(FieldName::ResourceName)
    );
    // a repeated field that the record does not read is no error
    let log = audit_log_from_str(r#"{"resourceid":"1","details":"","action":"0","userid":"1","userid":"2"}"#).unwrap();
    assert_eq!(log.resourceid, 1);
}

#[test]
fn repeated_details_property() {
    // every operation of a repeated property is decoded: an invalid earlier one fails
    let json = r#"{"resourceid":"1","action":"1","details":"{\"a\":[\"rename\",\"x\"],\"a\":[\"add\",\"y\"]}"}"#;
    assert_eq!(audit_log_from_str(json).unwrap_err(), DecodeError::InvalidValue(FieldName::Details));
    // where all decode, the last one stands
    let json = r#"{"resourceid":"1","action":"1","details":"{\"a\":[\"add\",\"x\"],\"b\":[\"delete\",\"z\"],\"a\":[\"update\",\"n\",\"o\"]}"}"#;
    let log = audit_log_from_str(json).unwrap();
    assert_eq!(log.action, AuditAction::Update);
    assert_eq!(log.details.len(), 2);
    match log.details.get("a") {
        Some(ZbxResourceOp::Update { new, old }) => {
            assert_eq!(new, "n");
            assert_eq!(old, "o");
        }
        other => panic!("{other:?}"),
    }
}
