use vstd::prelude::*;

verus! {

/// How many days back the import of a newly added group starts.
pub const LAST_DAYS: i64 = 30;

/// The earliest Unix time that the `time` crate represents (year -9999).
pub const MIN_UNIX_TIME: i64 = -377705116800;

/// The latest Unix time that the `time` crate represents (end of year 9999).
pub const MAX_UNIX_TIME: i64 = 253402300799;

/// The last update time of a host in a group.
pub struct HostInfo {
    pub hostid: i64,
    pub last_change: i64,
}

impl HostInfo {
    pub fn new(hostid: i64, last_change: i64) -> (r: Self)
        ensures
            r.hostid == hostid,
            r.last_change == last_change,
    {
        HostInfo { hostid, last_change }
    }
}

/// The hosts of a group.
pub struct HostsInfo {
    pub hosts: Vec<HostInfo>,
}

impl HostsInfo {
    pub fn new(hosts: Vec<HostInfo>) -> (r: Self)
        ensures
            r.hosts == hosts,
    {
        HostsInfo { hosts }
    }

    /// The ids of the hosts, in order.
    pub fn get_hostids(&self) -> (r: Vec<i64>)
        ensures
            r@ == self.hosts@.map_values(|h: HostInfo| h.hostid),
    {
        let mut ids: Vec<i64> = Vec::new();
        let n = self.hosts.len();
        let mut i: usize = 0;
        while i < n
            invariant
                i <= n,
                n == self.hosts@.len(),
                ids@ =~= self.hosts@.take(i as int).map_values(|h: HostInfo| h.hostid),
            decreases n - i,
        {
            ids.push(self.hosts[i].hostid);
            i = i + 1;
        }
        assert(self.hosts@.take(n as int) =~= self.hosts@);
        ids
    }
}

/// What the import keeps per host group: where the next page of events
/// starts (time and event id), the group's hosts, and when it last changed.
pub struct GroupInfo {
    pub last_start: i64,
    pub last_event: i64,
    pub hosts: HostsInfo,
    pub last_change: i64,
}

impl GroupInfo {
    pub fn new(last_start: i64, last_event: i64, hosts: HostsInfo, last_change: i64) -> (r: Self)
        ensures
            r.last_start == last_start,
            r.last_event == last_event,
            r.hosts == hosts,
            r.last_change == last_change,
    {
        GroupInfo { last_start, last_event, hosts, last_change }
    }
}


/// The Unix time of `time::OffsetDateTime::UNIX_EPOCH`.
/// What is claimed: it is 0, as the `time` crate defines the epoch.
#[verifier::external_body]
fn unix_epoch() -> (r: i64)
    ensures
        r == 0,
{
    time::OffsetDateTime::UNIX_EPOCH.unix_timestamp()
}

/// `days` whole days before the Unix time `unix`, computed with the `time`
/// crate (`OffsetDateTime - Duration::days`). What is claimed: the result is
/// `unix - days * 86400`, for times inside the range that `time` represents
/// without its `large-dates` feature (there `from_unix_timestamp` succeeds and
/// the subtraction does not overflow).
#[verifier::external_body]
fn days_before(unix: i64, days: i64) -> (r: i64)
    requires
        MIN_UNIX_TIME <= unix <= MAX_UNIX_TIME,
        0 <= days <= 10_000_000,
        MIN_UNIX_TIME <= unix - days * 86400,
    ensures
        r == unix - days * 86400,
{
    let t = time::OffsetDateTime::from_unix_timestamp(unix).unwrap();
    (t - time::Duration::days(days)).unix_timestamp()
}

/// Where the events of a group start when nothing has been imported for it:
/// [`LAST_DAYS`] days before `now`.
pub fn window_start(now: i64) -> (r: i64)
    requires
        MIN_UNIX_TIME + LAST_DAYS * 86400 <= now <= MAX_UNIX_TIME,
    ensures
        r == now - LAST_DAYS * 86400,
{
    days_before(now, LAST_DAYS)
}

impl GroupInfo {
    /// The state of a group read back from the database: the latest problem
    /// start, the latest stored event id (the next page starts one past it),
    /// and the hosts with their last change; the group itself counts as
    /// unchanged since the epoch.
    pub fn from_loaded(latest_start: i64, latest_eventid: i64, hosts: &Vec<(i64, i64)>) -> (r: Self)
        requires
            latest_eventid < i64::MAX,
        ensures
            r.last_start == latest_start,
            r.last_event == latest_eventid + 1,
            r.last_change == 0,
            r.hosts.hosts@.len() == hosts@.len(),
            forall|i: int| 0 <= i < hosts@.len() ==> #[trigger] r.hosts.hosts@[i].hostid == hosts@[i].0
                && r.hosts.hosts@[i].last_change == hosts@[i].1,
    {
        let mut list: Vec<HostInfo> = Vec::new();
        let n = hosts.len();
        let mut i: usize = 0;
        while i < n
            invariant
                i <= n,
                n == hosts@.len(),
                list@.len() == i,
                forall|j: int| 0 <= j < i ==> #[trigger] list@[j].hostid == hosts@[j].0
                    && list@[j].last_change == hosts@[j].1,
            decreases n - i,
        {
            let (hid, last_change) = hosts[i];
            list.push(HostInfo::new(hid, last_change));
            i = i + 1;
        }
        GroupInfo::new(latest_start, latest_eventid + 1, HostsInfo::new(list), unix_epoch())
    }

    /// The state of a group just added: events from `from` on, no event seen
    /// yet, every host unchanged since the epoch, the group changed at `now`.
    pub fn for_new_group(from: i64, hostids: &Vec<i64>, now: i64) -> (r: Self)
        ensures
            r.last_start == from,
            r.last_event == 0,
            r.last_change == now,
            r.hosts.hosts@.len() == hostids@.len(),
            forall|i: int| 0 <= i < hostids@.len() ==> #[trigger] r.hosts.hosts@[i].hostid == hostids@[i]
                && r.hosts.hosts@[i].last_change == 0,
    {
        let epoch = unix_epoch();
        let mut list: Vec<HostInfo> = Vec::new();
        let n = hostids.len();
        let mut i: usize = 0;
        while i < n
            invariant
                i <= n,
                n == hostids@.len(),
                epoch == 0,
                list@.len() == i,
                forall|j: int| 0 <= j < i ==> #[trigger] list@[j].hostid == hostids@[j]
                    && list@[j].last_change == 0,
            decreases n - i,
        {
            list.push(HostInfo::new(hostids[i], epoch));
            i = i + 1;
        }
        GroupInfo::new(from, 0, HostsInfo::new(list), now)
    }
}

/// Which groups to load from the database: all of them, or one by name.
pub enum LoadGroup {
    All,
    Group(String),
}

/// The query that loads groups; for one group it filters by `$2`.
pub open spec fn load_group_query_text(one_group: bool) -> Seq<char> {
    "\n            select gh.group_name as group,\n                array_agg(distinct h.hostid) as hosts,\n                coalesce(max(e.start_time), $1) as latest_start,\n                coalesce(max(e.eventid), 0) as latest_eventid\n            from zbx_group_host as gh \n                join zbx_hosts as h on h.host = gh.host\n                left join events as e on e.host = h.host"@
        + if one_group {
        "\nwhere gh.group_name = $2\n"@
    } else {
        ""@
    } + "\n                group by gh.group_name;\n        "@
}

/// The SQL text that loads the groups `group` asks for.
pub fn load_group_query(group: &LoadGroup) -> (r: String)
    ensures
        r@ == load_group_query_text(group is Group),
{
    let mut q = String::from_str(
        "\n            select gh.group_name as group,\n                array_agg(distinct h.hostid) as hosts,\n                coalesce(max(e.start_time), $1) as latest_start,\n                coalesce(max(e.eventid), 0) as latest_eventid\n            from zbx_group_host as gh \n                join zbx_hosts as h on h.host = gh.host\n                left join events as e on e.host = h.host",
    );
    match group {
        LoadGroup::Group(_) => q.append("\nwhere gh.group_name = $2\n"),
        LoadGroup::All => q.append(""),
    }
    q.append("\n                group by gh.group_name;\n        ");
    q
}

} // verus!
