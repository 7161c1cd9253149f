# zbx_events

A service that follows Zabbix host groups and copies their problem events
into PostgreSQL, closing each stored problem when its recovery event shows up.

- `src/` is the library, written in Verus: the event model (`models`), the
  reading of decimal text and of JSON values (`text`, `json`), the decoding of
  audit-log records and API replies (`api_zbx`), the per-page import decisions
  (`task`), the matching of recoveries to stored problems (`resolution`), group
  state (`groups`), request parameters (`zabbix_api`) and the socket protocol
  (`repository`). Every function there carries a contract that Verus proves;
  the calls into `serde_json` and `time` stand behind small trusted wrappers.
- `app/` is the program around it: the Unix socket listener, the timer loop,
  the HTTP calls to the Zabbix API, the SQL statements, and the serde reader
  that hands JSON objects to the audit-record decoder member by member, in
  document order with repeated keys kept.
- `tests/` runs the library on concrete payloads and pages.
