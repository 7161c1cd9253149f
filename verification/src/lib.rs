//! Event bookkeeping for a Zabbix-to-database bridge: the data model of
//! problems and their resolutions, the decoding of Zabbix audit-log and API
//! payloads, and the decisions taken while importing event pages.

pub mod models;
pub mod text;
pub mod json;
pub mod groups;
pub mod task;
pub mod resolution;
pub mod api_zbx;
pub mod repository;
pub mod zabbix_api;
