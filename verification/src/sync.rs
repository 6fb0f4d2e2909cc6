//! Incremental sync: merge a fresh pull of updated issues into an existing log.
//!
//! Event ids staged by this library are prefixed with the issue key
//! (`KEY/created`, `KEY/comment/<id>`, `KEY/change/<id>/<n>`), so everything
//! belonging to an issue can be pruned before its refreshed data is mapped
//! back in. Incremental sync is checkpointed re-writes of a static log.

use vstd::prelude::*;

use std::collections::BTreeSet;

use chrono::{DateTime, NaiveDate, ParseError};
use ocel::Ocel;
use ocel_etl::StagingLog;

use crate::mapper::{key_index, key_index_of};
use crate::models::{valid_instant, Issue, Timestamp};
use crate::validation::{all_text, attribute_declared, object_exists, ocel_valid, ocel_view, type_declared, restage, restaged, OcelEventRecord, OcelObjectRecord, OcelView};
use crate::staging::{add_o2o, apply_ops, empty_view, lemma_apply_ops_push, new_log, staged, StagingOp};
use crate::text::{before_first_slash, prefix_before_slash};

verus! {

#[verifier::external_type_specification]
#[verifier::external_body]
pub struct ExOcel(Ocel);

/// The issue keys in a set of key strings.
pub open spec fn key_set(refreshed: Set<String>) -> Set<Seq<char>> {
    refreshed.map(|key: String| key@)
}

/// `BTreeSet::contains`: whether the set holds a string equal to `key`.
#[verifier::external_body]
fn holds_key(refreshed: &BTreeSet<String>, key: &str) -> (held: bool)
    ensures
        held == key_set(refreshed@).contains(key@),
{
    refreshed.contains(key)
}

/// The issue key an event id belongs to (`"DEMO-1/created"` → `"DEMO-1"`):
/// the text before the first `/`, the whole id when it has none.
pub fn issue_key_of(event_id: &str) -> (key: String)
    ensures
        key@ == before_first_slash(event_id@),
{
    prefix_before_slash(event_id)
}

/// Whether an event survives pruning: its issue is not being refreshed.
pub open spec fn survives(event_id: Seq<char>, refreshed: Set<String>) -> bool {
    !key_set(refreshed).contains(before_first_slash(event_id))
}

/// Whether an event survives pruning.
pub fn keeps_event(event_id: &str, refreshed: &BTreeSet<String>) -> (kept: bool)
    ensures
        kept == survives(event_id@, refreshed@),
{
    let key = issue_key_of(event_id);
    !holds_key(refreshed, key.as_str())
}

/// Whether some event of `events` relates to object `object`.
pub open spec fn referenced(events: Seq<OcelEventRecord>, object: Seq<char>) -> bool {
    exists|i: int, j: int| 0 <= i < events.len() && 0 <= j < events[i].relations.len() && events[i].relations[j].0 == object
}

/// The events that survive pruning.
pub open spec fn surviving_events(v: OcelView, refreshed: Set<String>) -> Seq<OcelEventRecord> {
    v.events.filter(|e: OcelEventRecord| survives(e.id, refreshed))
}

/// A log after pruning: the same type declarations, the surviving events
/// (their relations intact, as every object they relate to is kept), and
/// only the objects a surviving event relates to, each with its links to
/// dropped objects removed.
pub open spec fn pruned_view(v: OcelView, refreshed: Set<String>) -> OcelView {
    let kept = surviving_events(v, refreshed);
    OcelView {
        event_types: v.event_types,
        object_types: v.object_types,
        events: kept,
        objects: v.objects.filter(|o: OcelObjectRecord| referenced(kept, o.id)).map_values(
            |o: OcelObjectRecord|
                OcelObjectRecord {
                    relations: o.relations.filter(|r: (Seq<char>, Seq<char>)| referenced(kept, r.0)),
                    ..o
                },
        ),
    }
}

/// `Ocel::filter_events` with the pruning predicate: keeps the type
/// declarations, the events that survive and only the objects a kept event
/// relates to, links to dropped objects removed.
#[verifier::external_body]
fn filter_surviving(existing: &Ocel, refreshed: &BTreeSet<String>) -> (pruned: Ocel)
    ensures
        ocel_view(pruned) == pruned_view(ocel_view(*existing), refreshed@),
{
    existing.filter_events(|e| keeps_event(&e.id, refreshed))
}

/// Drop everything belonging to the issues about to be refreshed.
///
/// Objects that were only referenced by the pruned events (the issues' tasks,
/// and e.g. users who only touched them) are dropped too and come back with
/// the refreshed mapping.
pub fn prune_refreshed(existing: &Ocel, refreshed: &BTreeSet<String>) -> (pruned: Ocel)
    ensures
        ocel_view(pruned) == pruned_view(ocel_view(*existing), refreshed@),
        ocel_valid(ocel_view(*existing)) ==> ocel_valid(ocel_view(pruned)),
{
    let pruned = filter_surviving(existing, refreshed);
    proof {
        if ocel_valid(ocel_view(*existing)) {
            lemma_pruning_keeps_valid(ocel_view(*existing), refreshed@);
        }
    }
    pruned
}

/// The positions in `s` of the elements a filter keeps, in order.
proof fn lemma_filter_positions<A>(s: Seq<A>, pred: spec_fn(A) -> bool) -> (pos: Seq<int>)
    ensures
        pos.len() == s.filter(pred).len(),
        forall|i: int| 0 <= i < pos.len() ==> 0 <= #[trigger] pos[i] < s.len() && s.filter(pred)[i] == s[pos[i]] && pred(s[pos[i]]),
        forall|i: int, j: int| 0 <= i < j < pos.len() ==> #[trigger] pos[i] < #[trigger] pos[j],
    decreases s.len(),
{
    reveal(Seq::filter);
    if s.len() == 0 {
        Seq::empty()
    } else {
        let front = s.drop_last();
        let p = lemma_filter_positions(front, pred);
        let f = front.filter(pred);
        assert forall|i: int| 0 <= i < p.len() implies s[#[trigger] p[i]] == front[p[i]] by {}
        if pred(s.last()) {
            assert(s.filter(pred) == f.push(s.last()));
            let q = p.push(s.len() - 1);
            assert forall|i: int| 0 <= i < q.len() implies 0 <= #[trigger] q[i] < s.len() && s.filter(pred)[i] == s[q[i]] && pred(s[q[i]]) by {
                if i < p.len() {
                    assert(q[i] == p[i]);
                    assert(s[p[i]] == front[p[i]]);
                }
            }
            q
        } else {
            assert(s.filter(pred) == f);
            assert forall|i: int| 0 <= i < p.len() implies 0 <= #[trigger] p[i] < s.len() && s.filter(pred)[i] == s[p[i]] && pred(s[p[i]]) by {
                assert(s[p[i]] == front[p[i]]);
            }
            p
        }
    }
}

/// Pruning keeps a valid log valid: every object a kept event relates to is
/// kept, and links to dropped objects are removed.
proof fn lemma_pruning_keeps_valid(v: OcelView, refreshed: Set<String>)
    requires
        ocel_valid(v),
    ensures
        ocel_valid(pruned_view(v, refreshed)),
{
    let kept = surviving_events(v, refreshed);
    let pe = |e: OcelEventRecord| survives(e.id, refreshed);
    let po = |o: OcelObjectRecord| referenced(kept, o.id);
    let objs = v.objects.filter(po);
    let p = pruned_view(v, refreshed);
    let epos = lemma_filter_positions(v.events, pe);
    let opos = lemma_filter_positions(v.objects, po);
    // Every object a kept event relates to is kept.
    assert forall|t: Seq<char>| object_exists(v, t) && referenced(kept, t) implies object_exists(p, t) by {
        let k = choose|k: int| 0 <= k < v.objects.len() && v.objects[k].id == t;
        v.objects.lemma_filter_contains(po, k);
        let m = choose|m: int| 0 <= m < objs.len() && objs[m] == v.objects[k];
        assert(p.objects[m].id == t);
    }
    assert forall|i: int, j: int| 0 <= i < j < p.objects.len() implies (#[trigger] p.objects[i]).id != (#[trigger] p.objects[j]).id by {
        assert(p.objects[i].id == v.objects[opos[i]].id);
        assert(p.objects[j].id == v.objects[opos[j]].id);
        assert(opos[i] < opos[j]);
    }
    assert forall|i: int, j: int| 0 <= i < j < p.events.len() implies (#[trigger] p.events[i]).id != (#[trigger] p.events[j]).id by {
        assert(p.events[i] == v.events[epos[i]]);
        assert(p.events[j] == v.events[epos[j]]);
        assert(epos[i] < epos[j]);
    }
    assert forall|i: int| 0 <= i < p.events.len() implies {
        &&& type_declared(p.event_types, (#[trigger] p.events[i]).event_type)
        &&& forall|a: int| 0 <= a < p.events[i].attributes.len() ==> attribute_declared(p.event_types, p.events[i].event_type, (#[trigger] p.events[i].attributes[a]).0)
        &&& forall|r: int| 0 <= r < p.events[i].relations.len() ==> object_exists(p, (#[trigger] p.events[i].relations[r]).0)
    } by {
        let q = epos[i];
        assert(p.events[i] == v.events[q]);
        assert(type_declared(v.event_types, v.events[q].event_type));
        assert forall|a: int| 0 <= a < p.events[i].attributes.len() implies attribute_declared(p.event_types, p.events[i].event_type, (#[trigger] p.events[i].attributes[a]).0) by {
            assert(p.events[i].attributes[a] == v.events[q].attributes[a]);
        }
        assert forall|r: int| 0 <= r < p.events[i].relations.len() implies object_exists(p, (#[trigger] p.events[i].relations[r]).0) by {
            let t = p.events[i].relations[r].0;
            assert(v.events[q].relations[r].0 == t);
            assert(object_exists(v, t));
            assert(referenced(kept, t));
        }
    }
    assert forall|i: int| 0 <= i < p.objects.len() implies {
        &&& type_declared(p.object_types, (#[trigger] p.objects[i]).object_type)
        &&& forall|a: int| 0 <= a < p.objects[i].attributes.len() ==> attribute_declared(p.object_types, p.objects[i].object_type, (#[trigger] p.objects[i].attributes[a]).0)
        &&& forall|r: int| 0 <= r < p.objects[i].relations.len() ==> object_exists(p, (#[trigger] p.objects[i].relations[r]).0)
    } by {
        let q = opos[i];
        let o = v.objects[q];
        assert(objs[i] == o);
        assert(p.objects[i].object_type == o.object_type);
        assert(p.objects[i].attributes == o.attributes);
        assert(type_declared(v.object_types, o.object_type));
        assert forall|a: int| 0 <= a < p.objects[i].attributes.len() implies attribute_declared(p.object_types, p.objects[i].object_type, (#[trigger] p.objects[i].attributes[a]).0) by {
            assert(p.objects[i].attributes[a] == o.attributes[a]);
        }
        let pr = |r: (Seq<char>, Seq<char>)| referenced(kept, r.0);
        let rpos = lemma_filter_positions(o.relations, pr);
        assert(p.objects[i].relations == o.relations.filter(pr));
        assert forall|r: int| 0 <= r < p.objects[i].relations.len() implies object_exists(p, (#[trigger] p.objects[i].relations[r]).0) by {
            let t = p.objects[i].relations[r].0;
            assert(o.relations[rpos[r]].0 == t);
            assert(object_exists(v, (v.objects[q].relations[rpos[r]]).0));
            assert(referenced(kept, t));
        }
    }
}

/// The staging log an incremental pull starts from: empty without an
/// existing log, otherwise the existing log re-staged without everything
/// belonging to the refreshed issues.
pub fn merge_base(existing: Option<&Ocel>, refreshed: &BTreeSet<String>) -> (s: StagingLog)
    ensures
        existing is None ==> staged(s) == empty_view(),
        existing matches Some(log) ==> (all_text(pruned_view(ocel_view(*log), refreshed@)) ==> staged(s)
            == restaged(pruned_view(ocel_view(*log), refreshed@))),
        existing matches Some(log) ==> (!all_text(pruned_view(ocel_view(*log), refreshed@)) ==> !staged(s).texts_only),
{
    match existing {
        Some(log) => restage(prune_refreshed(log, refreshed)),
        None => new_log(),
    }
}

/// The `parent of` link re-added for one child outside the refresh set whose
/// parent is refreshed.
pub open spec fn repair_link(child: Issue, keys: Map<u64, Seq<char>>, refreshed: Set<String>) -> Seq<StagingOp> {
    if key_set(refreshed).contains(child.issue_key@) {
        Seq::empty()
    } else {
        match child.parent_issue_id {
            Some(parent) => if keys.contains_key(parent) && key_set(refreshed).contains(keys[parent]) {
                seq![StagingOp::Link { source: keys[parent], target: child.issue_key@, qualifier: "parent of"@ }]
            } else {
                Seq::empty()
            },
            None => Seq::empty(),
        }
    }
}

/// The links re-added for `children`, in order.
pub open spec fn repair_links(children: Seq<Issue>, keys: Map<u64, Seq<char>>, refreshed: Set<String>) -> Seq<StagingOp>
    decreases children.len(),
{
    if children.len() == 0 {
        Seq::empty()
    } else {
        repair_links(children.drop_last(), keys, refreshed) + repair_link(children.last(), keys, refreshed)
    }
}

/// Re-add `parent of` links from refreshed parents to unrefreshed children.
///
/// The link lives on the parent object, which is rebuilt when the parent is
/// refreshed, but only the child's record knows the relation, so children
/// outside the refresh set contribute it here.
pub fn repair_parent_links(staging: &mut StagingLog, issues: &[Issue], refreshed: &BTreeSet<String>)
    ensures
        staged(*final(staging)) == apply_ops(
            staged(*old(staging)),
            repair_links(issues@, key_index(issues@), refreshed@),
        ),
{
    broadcast use vstd::std_specs::hash::group_hash_axioms;
    let ghost v = staged(*staging);
    let key_by_id = key_index_of(issues);
    let ghost keys = key_index(issues@);
    let mut i: usize = 0;
    assert(issues@.take(0) =~= Seq::<Issue>::empty());
    while i < issues.len()
        invariant
            i <= issues.len(),
            key_by_id@.map_values(|k: String| k@) == keys,
            staged(*staging) == apply_ops(v, repair_links(issues@.take(i as int), keys, refreshed@)),
        decreases issues.len() - i,
    {
        let child = &issues[i];
        let ghost so_far = repair_links(issues@.take(i as int), keys, refreshed@);
        proof {
            let next = issues@.take(i + 1);
            assert(next.drop_last() == issues@.take(i as int));
            assert(next.last() == *child);
        }
        if !holds_key(refreshed, child.issue_key.as_str()) {
            if let Some(parent_id) = child.parent_issue_id {
                if let Some(parent_key) = key_by_id.get(&parent_id) {
                    if holds_key(refreshed, parent_key.as_str()) {
                        add_o2o(staging, parent_key.as_str(), child.issue_key.as_str(), "parent of");
                        proof {
                            let op = StagingOp::Link { source: keys[parent_id], target: child.issue_key@, qualifier: "parent of"@ };
                            lemma_apply_ops_push(v, so_far, op);
                            assert(so_far.push(op) =~= so_far + repair_link(*child, keys, refreshed@));
                        }
                    } else {
                        assert(so_far + repair_link(*child, keys, refreshed@) =~= so_far);
                    }
                } else {
                    assert(so_far + repair_link(*child, keys, refreshed@) =~= so_far);
                }
            } else {
                assert(so_far + repair_link(*child, keys, refreshed@) =~= so_far);
            }
        } else {
            assert(so_far + repair_link(*child, keys, refreshed@) =~= so_far);
        }
        i = i + 1;
    }
    assert(issues@.take(i as int) == issues@);
}


/// Whether an issue last updated at `updated` is refreshed: every issue
/// when there is no cut-off, otherwise those updated at or after it.
pub open spec fn needs_refresh(updated: Timestamp, since: Option<Timestamp>) -> bool {
    match since {
        Some(cutoff) => updated.spec_at_or_after(cutoff),
        None => true,
    }
}

/// The keys of the issues among `issues` that are refreshed.
pub open spec fn refreshed_keys(issues: Seq<Issue>, since: Option<Timestamp>) -> Set<Seq<char>> {
    Set::new(|key: Seq<char>| exists|i: int| 0 <= i < issues.len() && needs_refresh(issues[i].updated, since) && issues[i].issue_key@ == key)
}

/// `BTreeSet::insert`: afterwards the set holds `key` besides what it held.
#[verifier::external_body]
fn insert_key(refreshed: &mut BTreeSet<String>, key: String)
    ensures
        key_set(final(refreshed)@) == key_set(old(refreshed)@).insert(key@),
{
    refreshed.insert(key);
}

/// Add the keys of the issues updated at or after `since` (all of them
/// without a cut-off) to the refresh set.
pub fn collect_refreshed(refreshed: &mut BTreeSet<String>, issues: &[Issue], since: Option<Timestamp>)
    ensures
        key_set(final(refreshed)@) == key_set(old(refreshed)@) + refreshed_keys(issues@, since),
{
    let ghost start = key_set(refreshed@);
    let mut i: usize = 0;
    assert(refreshed_keys(issues@.take(0), since) =~= Set::<Seq<char>>::empty());
    assert(start + Set::<Seq<char>>::empty() =~= start);
    while i < issues.len()
        invariant
            i <= issues.len(),
            key_set(refreshed@) == start + refreshed_keys(issues@.take(i as int), since),
        decreases issues.len() - i,
    {
        let issue = &issues[i];
        let refresh = match since {
            Some(cutoff) => issue.updated.at_or_after(&cutoff),
            None => true,
        };
        let ghost before = key_set(refreshed@);
        if refresh {
            insert_key(refreshed, issue.issue_key.clone());
        }
        proof {
            let next = issues@.take(i + 1);
            assert forall|k: Seq<char>| refreshed_keys(next, since).contains(k) == (refreshed_keys(issues@.take(i as int), since).contains(k)
                || (needs_refresh(issue.updated, since) && issue.issue_key@ == k)) by {
                if refreshed_keys(next, since).contains(k) {
                    let w = choose|w: int| 0 <= w < next.len() && needs_refresh(next[w].updated, since) && next[w].issue_key@ == k;
                    if w < i {
                        assert(issues@.take(i as int)[w] == next[w]);
                    }
                }
                if refreshed_keys(issues@.take(i as int), since).contains(k) {
                    let w = choose|w: int| 0 <= w < i && needs_refresh(issues@.take(i as int)[w].updated, since) && issues@.take(i as int)[w].issue_key@ == k;
                    assert(next[w] == issues@.take(i as int)[w]);
                }
                if needs_refresh(issue.updated, since) && issue.issue_key@ == k {
                    assert(next[i as int] == *issue);
                }
            }
            assert(key_set(refreshed@) =~= start + refreshed_keys(next, since));
        }
        i = i + 1;
    }
    assert(issues@.take(i as int) == issues@);
}

/// The newest of `times`, none when there are none.
pub fn newest(times: &[Timestamp]) -> (latest: Option<Timestamp>)
    ensures
        latest is None <==> times@.len() == 0,
        latest matches Some(t) ==> times@.contains(t) && forall|i: int| 0 <= i < times@.len() ==> t.spec_at_or_after(#[trigger] times@[i]),
{
    if times.len() == 0 {
        return None;
    }
    let mut best = times[0];
    let mut i: usize = 1;
    while i < times.len()
        invariant
            1 <= i <= times.len(),
            times@.contains(best),
            forall|j: int| 0 <= j < i ==> best.spec_at_or_after(#[trigger] times@[j]),
        decreases times.len() - i,
    {
        if !best.at_or_after(&times[i]) {
            best = times[i];
        }
        i = i + 1;
    }
    Some(best)
}

/// The refresh cut-off: the given one, else the newest event time of the
/// existing log (when there is one), else none.
pub fn refresh_since(since_arg: Option<Timestamp>, existing_times: Option<&[Timestamp]>) -> (since: Option<Timestamp>)
    ensures
        since_arg is Some ==> since == since_arg,
        since_arg is None && existing_times is None ==> since is None,
        since_arg is None ==> (existing_times matches Some(times) ==> (
            (since is None <==> times@.len() == 0)
            && (since matches Some(t) ==> times@.contains(t) && forall|i: int| 0 <= i < times@.len() ==> t.spec_at_or_after(#[trigger] times@[i])))),
{
    match since_arg {
        Some(s) => Some(s),
        None => match existing_times {
            Some(times) => newest(times),
            None => None,
        },
    }
}

#[verifier::external_type_specification]
#[verifier::external_body]
pub struct ExParseError(ParseError);

/// The instant an RFC 3339 text names, as (seconds since the epoch,
/// sub-second nanoseconds), when `chrono` parses it.
pub uninterp spec fn rfc3339_instant(text: Seq<char>) -> Option<(int, int)>;

/// The midnight (UTC) of the date a text names under a `chrono` format,
/// as seconds since the epoch, when `chrono` parses it.
pub uninterp spec fn date_midnight(text: Seq<char>, format: Seq<char>) -> Option<int>;

/// `DateTime::parse_from_rfc3339`, read as the UTC instant it names.
#[verifier::external_body]
fn parse_rfc3339(text: &str) -> (instant: Option<(i64, u32)>)
    ensures
        match instant {
            Some((secs, nanos)) => rfc3339_instant(text@) == Some((secs as int, nanos as int)),
            None => rfc3339_instant(text@) is None,
        },
{
    DateTime::parse_from_rfc3339(text).ok().map(|d| (d.timestamp(), d.timestamp_subsec_nanos()))
}

/// `NaiveDate::parse_from_str`, read as the UTC midnight of the date.
#[verifier::external_body]
fn parse_date(text: &str, format: &str) -> (midnight: Result<i64, ParseError>)
    ensures
        match midnight {
            Ok(secs) => date_midnight(text@, format@) == Some(secs as int),
            Err(_) => date_midnight(text@, format@) is None,
        },
{
    NaiveDate::parse_from_str(text, format).map(|d| d.and_hms_opt(0, 0, 0).unwrap_or_default().and_utc().timestamp())
}

/// Why a refresh cut-off was refused.
#[derive(Debug)]
pub enum SinceError {
    /// Neither RFC 3339 nor `YYYY-MM-DD`.
    Invalid(ParseError),
    /// A date outside the representable range.
    OutOfRange,
}

/// Parse a refresh cut-off: RFC 3339, or a `YYYY-MM-DD` date (its UTC midnight).
pub fn parse_since(text: &str) -> (since: Result<Timestamp, SinceError>)
    ensures
        match rfc3339_instant(text@) {
            Some((secs, nanos)) => valid_instant(secs, nanos) ==> (since matches Ok(t)
                && t.spec_secs() == secs && t.spec_nanos() == nanos),
            None => true,
        },
        match rfc3339_instant(text@) {
            Some((secs, nanos)) => valid_instant(secs, nanos),
            None => false,
        } || match date_midnight(text@, "%Y-%m-%d"@) {
            Some(secs) => if valid_instant(secs, 0) {
                since matches Ok(t) && t.spec_secs() == secs && t.spec_nanos() == 0
            } else {
                since matches Err(SinceError::OutOfRange)
            },
            None => since matches Err(SinceError::Invalid(_)),
        },
{
    if let Some((secs, nanos)) = parse_rfc3339(text) {
        if let Some(t) = Timestamp::new(secs, nanos) {
            return Ok(t);
        }
    }
    match parse_date(text, "%Y-%m-%d") {
        Ok(secs) => match Timestamp::new(secs, 0) {
            Some(t) => Ok(t),
            None => Err(SinceError::OutOfRange),
        },
        Err(e) => Err(SinceError::Invalid(e)),
    }
}

} // verus!
