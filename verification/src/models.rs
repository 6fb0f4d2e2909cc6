//! Backlog API v2 records (only the fields the mapping needs), as plain data.

use vstd::prelude::*;

verus! {

/// Earliest second of a representable UTC date-time (`chrono`'s minimum).
pub const MIN_SECS: i64 = -8_334_601_228_800i64;

/// Latest second of a representable UTC date-time: +262142-12-31T23:59:59Z.
pub const MAX_SECS: i64 = 8_210_266_876_799i64;

/// A UTC instant: whole seconds since the Unix epoch plus a sub-second part in
/// nanoseconds. A nanosecond part of one second or more marks a leap second and
/// is only allowed on the last second of a minute.
#[derive(Clone, Copy, Debug, PartialEq, Eq)]
pub struct Timestamp {
    secs: i64,
    nanos: u32,
}

/// Whether `secs` and `nanos` name a representable UTC instant.
pub open spec fn valid_instant(secs: int, nanos: int) -> bool {
    &&& MIN_SECS <= secs <= MAX_SECS
    &&& 0 <= nanos
    &&& (nanos < 1_000_000_000 || (nanos < 2_000_000_000 && secs % 60 == 59))
}

impl Timestamp {
    #[verifier::type_invariant]
    closed spec fn inv(self) -> bool {
        valid_instant(self.secs as int, self.nanos as int)
    }

    /// Seconds since the Unix epoch.
    pub closed spec fn spec_secs(self) -> i64 {
        self.secs
    }

    /// Sub-second part in nanoseconds.
    pub closed spec fn spec_nanos(self) -> u32 {
        self.nanos
    }

    /// The instant `secs` seconds and `nanos` nanoseconds after the epoch, if representable.
    pub fn new(secs: i64, nanos: u32) -> (t: Option<Timestamp>)
        ensures
            t is Some <==> valid_instant(secs as int, nanos as int),
            t matches Some(t) ==> t.spec_secs() == secs && t.spec_nanos() == nanos,
    {
        if secs < MIN_SECS || secs > MAX_SECS {
            return None;
        }
        let offset: u64 = (secs - MIN_SECS) as u64;
        proof {
            assert(MIN_SECS % 60 == 0);
            assert((secs - MIN_SECS) % 60 == secs % 60);
        }
        if nanos < 1_000_000_000 || (nanos < 2_000_000_000 && offset % 60 == 59) {
            Some(Timestamp { secs, nanos })
        } else {
            None
        }
    }

    /// The Unix epoch, 1970-01-01T00:00:00Z.
    pub closed spec fn epoch() -> Timestamp {
        Timestamp { secs: 0, nanos: 0 }
    }

    /// The Unix epoch, 1970-01-01T00:00:00Z.
    pub fn unix_epoch() -> (t: Timestamp)
        ensures
            t == Timestamp::epoch(),
            t.spec_secs() == 0,
            t.spec_nanos() == 0,
    {
        Timestamp { secs: 0, nanos: 0 }
    }

    /// Whether this instant is the same as or later than `other`.
    pub open spec fn spec_at_or_after(self, other: Timestamp) -> bool {
        self.spec_secs() > other.spec_secs() || (self.spec_secs() == other.spec_secs() && self.spec_nanos()
            >= other.spec_nanos())
    }

    /// Whether this instant is the same as or later than `other`.
    pub fn at_or_after(&self, other: &Timestamp) -> (r: bool)
        ensures
            r == self.spec_at_or_after(*other),
    {
        self.secs > other.secs || (self.secs == other.secs && self.nanos >= other.nanos)
    }

    /// Seconds since the Unix epoch.
    pub fn secs(&self) -> (s: i64)
        ensures
            s == self.spec_secs(),
    {
        self.secs
    }

    /// Sub-second part in nanoseconds.
    pub fn nanos(&self) -> (n: u32)
        ensures
            n == self.spec_nanos(),
    {
        self.nanos
    }
}

/// A Backlog project.
#[derive(Clone, Debug)]
pub struct Project {
    pub id: u64,
    pub project_key: String,
    pub name: String,
}

/// A Backlog user.
#[derive(Clone, Debug)]
pub struct User {
    pub id: u64,
    pub name: String,
}

/// An id/name pair (issue type, status, priority, milestone, category).
#[derive(Clone, Debug)]
pub struct Named {
    pub id: u64,
    pub name: String,
}

/// A Backlog issue.
#[derive(Clone, Debug)]
pub struct Issue {
    pub id: u64,
    pub issue_key: String,
    pub summary: String,
    pub issue_type: Named,
    pub status: Named,
    pub priority: Named,
    pub assignee: Option<User>,
    pub category: Vec<Named>,
    pub milestone: Vec<Named>,
    pub parent_issue_id: Option<u64>,
    pub created_user: User,
    pub created: Timestamp,
    pub updated: Timestamp,
    pub due_date: Option<Timestamp>,
}

/// A comment on an issue. Plain comments carry text; pure change records have
/// no content.
#[derive(Clone, Debug)]
pub struct Comment {
    pub id: u64,
    pub content: Option<String>,
    pub created_user: User,
    pub created: Timestamp,
    pub change_log: Vec<ChangeLogEntry>,
}

/// One field change recorded on a comment (Backlog stores status/assignee/...
/// changes as `changeLog` entries attached to comments).
#[derive(Clone, Debug)]
pub struct ChangeLogEntry {
    pub field: String,
    pub new_value: Option<String>,
    pub original_value: Option<String>,
}

} // verus!
