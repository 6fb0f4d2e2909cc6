//! Incremental sync against a full re-pull: which events each one stages.

use vstd::prelude::*;

use crate::validation::{
    all_text, built_log, built_event, built_object, restage_events_ops, restage_object_ops, restage_objects_ops,
    restaged, restaged_event, OcelEventRecord, OcelObjectRecord, OcelView,
};
use crate::laws::{law_events_belong_to_their_issue, lemma_issue_head_no_events, lemma_no_events_append, events_keyed, no_events};
use crate::mapper::{
    comments_ops, created_event, initial_ops, issue_ops, issues_of, key_index, pairs_ops, parent_ops, project_all_ops,
    project_ops, tags_ops, task_ops, user_ops,
};
use crate::models::{Comment, Issue, Project};
use crate::staging::{apply_op, apply_ops, empty_view, EventRecord, StagingOp, StagingView};
use crate::sync::{key_set, pruned_view, repair_links, survives, surviving_events};
use crate::text::{before_first_slash, no_slash};

verus! {

/// The events that `ops` stage, in order.
pub open spec fn op_events(ops: Seq<StagingOp>) -> Seq<EventRecord>
    decreases ops.len(),
{
    if ops.len() == 0 {
        Seq::empty()
    } else {
        op_events(ops.drop_last()) + match ops.last() {
            StagingOp::Event { event } => seq![event],
            _ => Seq::empty(),
        }
    }
}

/// The events an issue stages (they do not depend on the issue-key index).
pub open spec fn issue_events(project: Project, issue: Issue, comments: Seq<Comment>) -> Seq<EventRecord> {
    op_events(issue_ops(project, issue, comments, Map::empty(), false))
}

/// What an incremental pull stages on top of its base for one project: the
/// project object, every refreshed issue of `pairs` in order, then the
/// repaired parent links.
pub open spec fn refreshed_ops(
    project: Project,
    pairs: Seq<(Issue, Vec<Comment>)>,
    keys: Map<u64, Seq<char>>,
    refreshed: Set<String>,
) -> Seq<StagingOp>
    decreases pairs.len(),
{
    if pairs.len() == 0 {
        Seq::empty()
    } else {
        refreshed_ops(project, pairs.drop_last(), keys, refreshed) + if key_set(refreshed).contains(
            pairs.last().0.issue_key@,
        ) {
            issue_ops(project, pairs.last().0, pairs.last().1@, keys, false)
        } else {
            Seq::empty()
        }
    }
}

pub(crate) proof fn lemma_op_events_append(a: Seq<StagingOp>, b: Seq<StagingOp>)
    ensures
        op_events(a + b) == op_events(a) + op_events(b),
    decreases b.len(),
{
    if b.len() == 0 {
        assert(a + b =~= a);
    } else {
        lemma_op_events_append(a, b.drop_last());
        assert((a + b).drop_last() =~= a + b.drop_last());
        assert((a + b).last() == b.last());
    }
}

pub(crate) proof fn lemma_no_events_none(ops: Seq<StagingOp>)
    requires
        no_events(ops),
    ensures
        op_events(ops) == Seq::<EventRecord>::empty(),
    decreases ops.len(),
{
    if ops.len() > 0 {
        assert(no_events(ops.drop_last())) by {
            assert forall|i: int| 0 <= i < ops.drop_last().len() implies !(#[trigger] ops.drop_last()[i] is Event) by {
                assert(ops.drop_last()[i] == ops[i]);
            }
        }
        lemma_no_events_none(ops.drop_last());
        assert(!(ops[ops.len() - 1] is Event));
    }
}

/// A log's events after calls are its events, then the calls' events.
pub(crate) proof fn lemma_apply_events(v: StagingView, ops: Seq<StagingOp>)
    ensures
        apply_ops(v, ops).events == v.events + op_events(ops),
        apply_ops(v, ops).texts_only == v.texts_only,
    decreases ops.len(),
{
    if ops.len() == 0 {
        assert(v.events + Seq::<EventRecord>::empty() =~= v.events);
    } else {
        lemma_apply_events(v, ops.drop_last());
        let w = apply_ops(v, ops.drop_last());
        match ops.last() {
            StagingOp::Event { event } => {
                assert(apply_op(w, ops.last()).events == w.events.push(event));
                assert(v.events + op_events(ops) =~= (v.events + op_events(ops.drop_last())).push(event));
            },
            _ => {
                assert(v.events + op_events(ops) =~= v.events + op_events(ops.drop_last()));
            },
        }
    }
}

/// Events staged by calls keyed to `key` have ids under `key`.
pub(crate) proof fn lemma_op_events_keyed(ops: Seq<StagingOp>, key: Seq<char>, e: EventRecord)
    requires
        events_keyed(ops, key),
        op_events(ops).contains(e),
    ensures
        before_first_slash(e.id) == key,
    decreases ops.len(),
{
    let front = ops.drop_last();
    assert(events_keyed(front, key)) by {
        assert forall|i: int| 0 <= i < front.len() implies (#[trigger] front[i] matches StagingOp::Event { event } ==> before_first_slash(event.id) == key) by {
            assert(front[i] == ops[i]);
        }
    }
    let k = choose|k: int| 0 <= k < op_events(ops).len() && op_events(ops)[k] == e;
    if k < op_events(front).len() {
        assert(op_events(front)[k] == e);
        lemma_op_events_keyed(front, key, e);
    } else {
        assert(ops[ops.len() - 1] is Event);
    }
}

/// The events an issue stages do not depend on the key index.
proof fn lemma_issue_events(project: Project, issue: Issue, comments: Seq<Comment>, keys: Map<u64, Seq<char>>)
    ensures
        op_events(issue_ops(project, issue, comments, keys, false)) == issue_events(project, issue, comments),
{
    let task = issue.issue_key@;
    let p2 = tags_ops(task, "milestone:"@, "milestone"@, "assigned to"@, issue.milestone@);
    let p3 = tags_ops(task, "category:"@, "category"@, "categorized as"@, issue.category@);
    let p4 = user_ops(issue.created_user);
    let p5 = seq![StagingOp::Event { event: created_event(project, issue) }];
    let p6 = initial_ops(issue, comments);
    let p7 = comments_ops(task, comments, false);
    lemma_issue_head_no_events(project, issue, comments, keys);
    lemma_issue_head_no_events(project, issue, comments, Map::empty());
    lemma_no_events_none(parent_ops(issue, keys));
    lemma_no_events_none(parent_ops(issue, Map::empty()));
    let a = task_ops(project, issue) + parent_ops(issue, keys) + p2 + p3 + p4 + p5 + p6 + p7;
    let b = task_ops(project, issue) + parent_ops(issue, Map::empty()) + p2 + p3 + p4 + p5 + p6 + p7;
    assert(issue_ops(project, issue, comments, keys, false) == a);
    assert(issue_ops(project, issue, comments, Map::empty(), false) == b);
    let t = task_ops(project, issue);
    lemma_op_events_append(t, parent_ops(issue, keys));
    lemma_op_events_append(t, parent_ops(issue, Map::empty()));
    lemma_op_events_append(t + parent_ops(issue, keys), p2 + p3 + p4 + p5 + p6 + p7);
    lemma_op_events_append(t + parent_ops(issue, Map::empty()), p2 + p3 + p4 + p5 + p6 + p7);
    assert(t + parent_ops(issue, keys) + p2 + p3 + p4 + p5 + p6 + p7 =~= (t + parent_ops(issue, keys)) + (p2 + p3 + p4
        + p5 + p6 + p7));
    assert(t + parent_ops(issue, Map::empty()) + p2 + p3 + p4 + p5 + p6 + p7 =~= (t + parent_ops(issue, Map::empty()))
        + (p2 + p3 + p4 + p5 + p6 + p7));
}

/// An event is staged for a project's issues exactly when some issue stages it.
proof fn lemma_pairs_events(project: Project, pairs: Seq<(Issue, Vec<Comment>)>, keys: Map<u64, Seq<char>>, e: EventRecord)
    ensures
        op_events(pairs_ops(project, pairs, keys)).contains(e) <==> exists|i: int|
            0 <= i < pairs.len() && #[trigger] issue_events(project, pairs[i].0, pairs[i].1@).contains(e),
    decreases pairs.len(),
{
    if pairs.len() > 0 {
        let front = pairs.drop_last();
        let n = pairs.len() - 1;
        lemma_pairs_events(project, front, keys, e);
        let a = pairs_ops(project, front, keys);
        let b = issue_ops(project, pairs[n].0, pairs[n].1@, keys, false);
        lemma_op_events_append(a, b);
        lemma_issue_events(project, pairs[n].0, pairs[n].1@, keys);
        let ea = op_events(a);
        let eb = op_events(b);
        if (ea + eb).contains(e) {
            let k = choose|k: int| 0 <= k < (ea + eb).len() && (ea + eb)[k] == e;
            if k < ea.len() {
                assert(ea[k] == e);
                let i = choose|i: int| 0 <= i < front.len() && #[trigger] issue_events(project, front[i].0, front[i].1@).contains(e);
                assert(front[i] == pairs[i]);
            } else {
                assert(eb[k - ea.len()] == e);
                assert(issue_events(project, pairs[n].0, pairs[n].1@).contains(e));
            }
        }
        if exists|i: int| 0 <= i < pairs.len() && #[trigger] issue_events(project, pairs[i].0, pairs[i].1@).contains(e) {
            let i = choose|i: int| 0 <= i < pairs.len() && #[trigger] issue_events(project, pairs[i].0, pairs[i].1@).contains(e);
            if i < n {
                assert(front[i] == pairs[i]);
                assert(ea.contains(e));
                let k = choose|k: int| 0 <= k < ea.len() && ea[k] == e;
                assert((ea + eb)[k] == e);
            } else {
                let k = choose|k: int| 0 <= k < eb.len() && eb[k] == e;
                assert((ea + eb)[ea.len() + k] == e);
            }
        }
    }
}

/// An event is staged for the refreshed issues exactly when a refreshed issue stages it.
proof fn lemma_refreshed_events(
    project: Project,
    pairs: Seq<(Issue, Vec<Comment>)>,
    keys: Map<u64, Seq<char>>,
    refreshed: Set<String>,
    e: EventRecord,
)
    ensures
        op_events(refreshed_ops(project, pairs, keys, refreshed)).contains(e) <==> exists|i: int|
            0 <= i < pairs.len() && key_set(refreshed).contains(pairs[i].0.issue_key@)
                && #[trigger] issue_events(project, pairs[i].0, pairs[i].1@).contains(e),
    decreases pairs.len(),
{
    if pairs.len() > 0 {
        let front = pairs.drop_last();
        let n = pairs.len() - 1;
        lemma_refreshed_events(project, front, keys, refreshed, e);
        let a = refreshed_ops(project, front, keys, refreshed);
        let on = key_set(refreshed).contains(pairs[n].0.issue_key@);
        let b = if on { issue_ops(project, pairs[n].0, pairs[n].1@, keys, false) } else { Seq::<StagingOp>::empty() };
        lemma_op_events_append(a, b);
        lemma_issue_events(project, pairs[n].0, pairs[n].1@, keys);
        if !on {
            assert(op_events(b) =~= Seq::<EventRecord>::empty());
        }
        let ea = op_events(a);
        let eb = op_events(b);
        if (ea + eb).contains(e) {
            let k = choose|k: int| 0 <= k < (ea + eb).len() && (ea + eb)[k] == e;
            if k < ea.len() {
                assert(ea[k] == e);
                let i = choose|i: int|
                    0 <= i < front.len() && key_set(refreshed).contains(front[i].0.issue_key@)
                        && #[trigger] issue_events(project, front[i].0, front[i].1@).contains(e);
                assert(front[i] == pairs[i]);
            } else {
                assert(eb[k - ea.len()] == e);
                assert(issue_events(project, pairs[n].0, pairs[n].1@).contains(e));
            }
        }
        if exists|i: int|
            0 <= i < pairs.len() && key_set(refreshed).contains(pairs[i].0.issue_key@)
                && #[trigger] issue_events(project, pairs[i].0, pairs[i].1@).contains(e) {
            let i = choose|i: int|
                0 <= i < pairs.len() && key_set(refreshed).contains(pairs[i].0.issue_key@)
                    && #[trigger] issue_events(project, pairs[i].0, pairs[i].1@).contains(e);
            if i < n {
                assert(front[i] == pairs[i]);
                assert(ea.contains(e));
                let k = choose|k: int| 0 <= k < ea.len() && ea[k] == e;
                assert((ea + eb)[k] == e);
            } else {
                let k = choose|k: int| 0 <= k < eb.len() && eb[k] == e;
                assert((ea + eb)[ea.len() + k] == e);
            }
        }
    }
}

proof fn lemma_filter_member<A>(s: Seq<A>, pred: spec_fn(A) -> bool, x: A)
    ensures
        s.filter(pred).contains(x) <==> s.contains(x) && pred(x),
    decreases s.len(),
{
    reveal(Seq::filter);
    if s.len() > 0 {
        let front = s.drop_last();
        lemma_filter_member(front, pred, x);
        let f = front.filter(pred);
        assert(s.filter(pred) == if pred(s.last()) { f.push(s.last()) } else { f });
        if s.contains(x) {
            let k = choose|k: int| 0 <= k < s.len() && s[k] == x;
            if k < front.len() {
                assert(front[k] == x);
            }
        }
        if front.contains(x) {
            let k = choose|k: int| 0 <= k < front.len() && front[k] == x;
            assert(s[k] == x);
        }
        if pred(s.last()) {
            if f.push(s.last()).contains(x) {
                let k = choose|k: int| 0 <= k < f.len() + 1 && f.push(s.last())[k] == x;
                if k < f.len() {
                    assert(f[k] == x);
                } else {
                    assert(s[s.len() - 1] == x);
                }
            }
            if f.contains(x) {
                let k = choose|k: int| 0 <= k < f.len() && f[k] == x;
                assert(f.push(s.last())[k] == x);
            }
            assert(f.push(s.last())[f.len() as int] == s.last());
        }
    }
}

/// Re-staging calls for objects stage no event.
proof fn lemma_restage_objects_no_events(objects: Seq<OcelObjectRecord>)
    ensures
        no_events(restage_objects_ops(objects)),
    decreases objects.len(),
{
    if objects.len() > 0 {
        lemma_restage_objects_no_events(objects.drop_last());
        let o = objects.last();
        let ops = restage_object_ops(o);
        let head = seq![StagingOp::Upsert { id: o.id, object_type: o.object_type }];
        let attrs = o.attributes.map_values(
            |a: (Seq<char>, Option<Seq<char>>, crate::models::Timestamp)|
                StagingOp::Attribute { id: o.id, name: a.0, value: a.1.unwrap(), time: a.2 },
        );
        let links = o.relations.map_values(
            |r: (Seq<char>, Seq<char>)| StagingOp::Link { source: o.id, target: r.0, qualifier: r.1 },
        );
        assert forall|i: int| 0 <= i < ops.len() implies !(#[trigger] ops[i] is Event) by {
            if i == 0 {
            } else if i < 1 + attrs.len() {
                assert(ops[i] == attrs[i - 1]);
            } else {
                assert(ops[i] == links[i - 1 - attrs.len()]);
            }
        }
        lemma_no_events_append(restage_objects_ops(objects.drop_last()), ops);
    }
}

/// Re-staging calls for events stage those events, in order.
proof fn lemma_restage_events(events: Seq<OcelEventRecord>)
    ensures
        op_events(restage_events_ops(events)) == events.map_values(|e: OcelEventRecord| restaged_event(e)),
    decreases events.len(),
{
    if events.len() > 0 {
        lemma_restage_events(events.drop_last());
        let ops = restage_events_ops(events);
        assert(ops.drop_last() =~= restage_events_ops(events.drop_last()));
        assert(events.map_values(|e: OcelEventRecord| restaged_event(e)) =~= events.drop_last().map_values(
            |e: OcelEventRecord| restaged_event(e),
        ).push(restaged_event(events.last())));
    }
}

/// A re-staged log holds the log's events, in order, and only string values.
proof fn lemma_restaged_events(v: OcelView)
    ensures
        restaged(v).events == v.events.map_values(|e: OcelEventRecord| restaged_event(e)),
        restaged(v).texts_only,
{
    let seeded = StagingView {
        events: Seq::empty(),
        objects: Seq::empty(),
        event_schema: crate::validation::seed_schema(v.event_types),
        object_schema: crate::validation::seed_schema(v.object_types),
        texts_only: true,
    };
    let a = restage_objects_ops(v.objects);
    let b = restage_events_ops(v.events);
    lemma_apply_events(seeded, a + b);
    lemma_op_events_append(a, b);
    lemma_restage_objects_no_events(v.objects);
    lemma_no_events_none(a);
    lemma_restage_events(v.events);
    assert(Seq::<EventRecord>::empty() + (Seq::<EventRecord>::empty() + op_events(b)) =~= op_events(b));
}

/// Through validation and back, a staged event is unchanged.
proof fn lemma_event_round_trip(e: EventRecord)
    ensures
        restaged_event(built_event(e)) == e,
{
    let back = restaged_event(built_event(e));
    assert(back.attributes =~= e.attributes);
}

/// The base of an incremental pull holds exactly the surviving events of the built_log log it came from.
proof fn lemma_base_events(old: StagingView, refreshed: Set<String>, e: EventRecord)
    ensures
        restaged(pruned_view(built_log(old), refreshed)).events.contains(e) <==> old.events.contains(e) && survives(
            e.id,
            refreshed,
        ),
{
    let g = built_log(old);
    let kept = surviving_events(g, refreshed);
    let pred = |x: OcelEventRecord| survives(x.id, refreshed);
    lemma_restaged_events(pruned_view(g, refreshed));
    let back = kept.map_values(|x: OcelEventRecord| restaged_event(x));
    if back.contains(e) {
        let k = choose|k: int| 0 <= k < back.len() && back[k] == e;
        let x = kept[k];
        assert(kept.contains(x));
        lemma_filter_member(g.events, pred, x);
        let j = choose|j: int| 0 <= j < g.events.len() && g.events[j] == x;
        lemma_event_round_trip(old.events[j]);
        assert(old.events[j] == e);
    }
    if old.events.contains(e) && survives(e.id, refreshed) {
        let j = choose|j: int| 0 <= j < old.events.len() && old.events[j] == e;
        let x = built_event(e);
        assert(g.events[j] == x);
        lemma_filter_member(g.events, pred, x);
        let k = choose|k: int| 0 <= k < kept.len() && kept[k] == x;
        lemma_event_round_trip(e);
        assert(back[k] == e);
    }
}

/// Whether every observation holds a string value.
pub open spec fn observations_text(s: Seq<(Seq<char>, Option<Seq<char>>, crate::models::Timestamp)>) -> bool {
    forall|j: int| 0 <= j < s.len() ==> (#[trigger] s[j]).1 is Some
}

proof fn lemma_sort_keeps_text(s: Seq<(Seq<char>, Option<Seq<char>>, crate::models::Timestamp)>)
    requires
        observations_text(s),
    ensures
        observations_text(crate::validation::sort_observations(s)),
    decreases s.len(),
{
    if s.len() > 0 {
        let front = s.drop_last();
        assert(observations_text(front)) by {
            assert forall|j: int| 0 <= j < front.len() implies (#[trigger] front[j]).1 is Some by {
                assert(front[j] == s[j]);
            }
        }
        lemma_sort_keeps_text(front);
        let sorted = crate::validation::sort_observations(front);
        let x = s.last();
        assert(x == s[s.len() - 1]);
        let pred = |y: (Seq<char>, Option<Seq<char>>, crate::models::Timestamp)| !crate::validation::observed_before(x, y);
        sorted.lemma_filter_len(pred);
        let p = sorted.filter(pred).len() as int;
        let r = sorted.take(p).push(x) + sorted.skip(p);
        assert(crate::validation::sort_observations(s) == r);
        assert forall|j: int| 0 <= j < r.len() implies (#[trigger] r[j]).1 is Some by {
            if j < p {
                assert(r[j] == sorted[j]);
            } else if j == p {
                assert(r[j] == x);
            } else {
                assert(r[j] == sorted[j - 1]);
            }
        }
    }
}

/// A built_log log, pruned, still holds only string values.
proof fn lemma_pruned_text(old: StagingView, refreshed: Set<String>)
    ensures
        all_text(pruned_view(built_log(old), refreshed)),
{
    let g = built_log(old);
    let v = pruned_view(g, refreshed);
    let kept = surviving_events(g, refreshed);
    let pred = |x: OcelEventRecord| survives(x.id, refreshed);
    assert forall|i: int, j: int| 0 <= i < v.events.len() && 0 <= j < v.events[i].attributes.len() implies (
    #[trigger] v.events[i].attributes[j]).1 is Some by {
        let x = kept[i];
        assert(kept.contains(x));
        lemma_filter_member(g.events, pred, x);
        let k = choose|k: int| 0 <= k < g.events.len() && g.events[k] == x;
        assert(x == built_event(old.events[k]));
    }
    let opred = |o: OcelObjectRecord| crate::sync::referenced(kept, o.id);
    let objs = g.objects.filter(opred);
    assert forall|i: int, j: int| 0 <= i < v.objects.len() && 0 <= j < v.objects[i].attributes.len() implies (
    #[trigger] v.objects[i].attributes[j]).1 is Some by {
        let x = objs[i];
        assert(objs.contains(x));
        lemma_filter_member(g.objects, opred, x);
        let k = choose|k: int| 0 <= k < g.objects.len() && g.objects[k] == x;
        let o = old.objects[k];
        assert(x == built_object(o));
        let firsts = crate::validation::first_occurrences(o.attributes).map_values(
            |a: (Seq<char>, Seq<char>, crate::models::Timestamp)| (a.0, Some(a.1), a.2),
        );
        assert(observations_text(firsts));
        lemma_sort_keeps_text(firsts);
        assert(v.objects[i].attributes == x.attributes);
    }
}

/// Incremental sync and a full re-pull stage the same events.
///
/// Take a project whose log was pulled in full from `old_pairs` and passed
/// validation, and a fresh pull `new_pairs` of the same issues (same keys, in
/// the same places, none with `/`) in which every issue outside `refreshed`
/// is unchanged. The incremental pull starts from the built_log log pruned of the
/// refreshed issues and re-staged, then stages the project, every refreshed
/// issue and the repaired parent links. Its events are exactly the events a
/// full re-pull of `new_pairs` stages (as a collection: the order may
/// differ), and the pruned base holds only string values, so re-staging it
/// is described exactly.
#[verifier::spinoff_prover]
#[verifier::rlimit(60)]
pub proof fn law_incremental_events_match_full_pull(
    project: Project,
    old_pairs: Seq<(Issue, Vec<Comment>)>,
    new_pairs: Seq<(Issue, Vec<Comment>)>,
    refreshed: Set<String>,
    e: EventRecord,
)
    requires
        old_pairs.len() == new_pairs.len(),
        forall|i: int| 0 <= i < old_pairs.len() ==> (#[trigger] old_pairs[i]).0.issue_key@ == new_pairs[i].0.issue_key@,
        forall|i: int| 0 <= i < old_pairs.len() ==> no_slash((#[trigger] old_pairs[i]).0.issue_key@),
        forall|i: int|
            0 <= i < old_pairs.len() && !key_set(refreshed).contains((#[trigger] old_pairs[i]).0.issue_key@)
                ==> old_pairs[i] == new_pairs[i],
    ensures
        ({
            let old_full = apply_ops(empty_view(), project_all_ops(project, old_pairs));
            let keys = key_index(issues_of(new_pairs));
            let base = restaged(pruned_view(built_log(old_full), refreshed));
            let incremental = apply_ops(
                base,
                project_ops(project) + refreshed_ops(project, new_pairs, keys, refreshed) + repair_links(
                    issues_of(new_pairs),
                    keys,
                    refreshed,
                ),
            );
            let full = apply_ops(empty_view(), project_all_ops(project, new_pairs));
            &&& all_text(pruned_view(built_log(old_full), refreshed))
            &&& (incremental.events.contains(e) <==> full.events.contains(e))
        }),
{
    let old_full = apply_ops(empty_view(), project_all_ops(project, old_pairs));
    let keys = key_index(issues_of(new_pairs));
    let old_keys = key_index(issues_of(old_pairs));
    let base = restaged(pruned_view(built_log(old_full), refreshed));
    let head = project_ops(project);
    let mid = refreshed_ops(project, new_pairs, keys, refreshed);
    let tail = repair_links(issues_of(new_pairs), keys, refreshed);
    let full = apply_ops(empty_view(), project_all_ops(project, new_pairs));
    lemma_pruned_text(old_full, refreshed);
    // Events of each side.
    assert(no_events(head));
    lemma_no_events_none(head);
    lemma_repair_no_events(issues_of(new_pairs), keys, refreshed);
    lemma_no_events_none(tail);
    lemma_op_events_append(head, mid);
    lemma_op_events_append(head + mid, tail);
    lemma_apply_events(base, head + mid + tail);
    let inc_events = base.events + op_events(mid);
    assert(base.events + op_events(head + mid + tail) =~= inc_events);
    lemma_apply_events(empty_view(), project_all_ops(project, new_pairs));
    lemma_op_events_append(head, pairs_ops(project, new_pairs, keys));
    assert(full.events =~= op_events(pairs_ops(project, new_pairs, keys)));
    lemma_apply_events(empty_view(), project_all_ops(project, old_pairs));
    lemma_op_events_append(head, pairs_ops(project, old_pairs, old_keys));
    assert(old_full.events =~= op_events(pairs_ops(project, old_pairs, old_keys)));
    lemma_base_events(old_full, refreshed, e);
    lemma_pairs_events(project, new_pairs, keys, e);
    lemma_pairs_events(project, old_pairs, old_keys, e);
    lemma_refreshed_events(project, new_pairs, keys, refreshed, e);
    if inc_events.contains(e) {
        let k = choose|k: int| 0 <= k < inc_events.len() && inc_events[k] == e;
        if k < base.events.len() {
            assert(base.events[k] == e);
            let i = choose|i: int| 0 <= i < old_pairs.len() && #[trigger] issue_events(project, old_pairs[i].0, old_pairs[i].1@).contains(e);
            lemma_issue_keyed(project, old_pairs[i].0, old_pairs[i].1@, e);
            assert(old_pairs[i] == new_pairs[i]);
            assert(issue_events(project, new_pairs[i].0, new_pairs[i].1@).contains(e));
        } else {
            assert(op_events(mid)[k - base.events.len()] == e);
        }
    }
    if full.events.contains(e) {
        let i = choose|i: int| 0 <= i < new_pairs.len() && #[trigger] issue_events(project, new_pairs[i].0, new_pairs[i].1@).contains(e);
        assert(old_pairs[i].0.issue_key@ == new_pairs[i].0.issue_key@);
        if key_set(refreshed).contains(new_pairs[i].0.issue_key@) {
            assert(op_events(mid).contains(e));
            let k = choose|k: int| 0 <= k < op_events(mid).len() && op_events(mid)[k] == e;
            assert(inc_events[base.events.len() + k] == e);
        } else {
            assert(old_pairs[i] == new_pairs[i]);
            assert(issue_events(project, old_pairs[i].0, old_pairs[i].1@).contains(e));
            assert(no_slash(old_pairs[i].0.issue_key@));
            lemma_issue_keyed(project, old_pairs[i].0, old_pairs[i].1@, e);
            let k = choose|k: int| 0 <= k < base.events.len() && base.events[k] == e;
            assert(inc_events[k] == e);
        }
    }
}

/// The events an issue stages are keyed by it.
proof fn lemma_issue_keyed(project: Project, issue: Issue, comments: Seq<Comment>, e: EventRecord)
    requires
        no_slash(issue.issue_key@),
        issue_events(project, issue, comments).contains(e),
    ensures
        before_first_slash(e.id) == issue.issue_key@,
{
    law_events_belong_to_their_issue(project, issue, comments, Map::empty(), false);
    lemma_op_events_keyed(issue_ops(project, issue, comments, Map::empty(), false), issue.issue_key@, e);
}

/// Repaired links stage no event.
proof fn lemma_repair_no_events(children: Seq<Issue>, keys: Map<u64, Seq<char>>, refreshed: Set<String>)
    ensures
        no_events(repair_links(children, keys, refreshed)),
    decreases children.len(),
{
    if children.len() > 0 {
        lemma_repair_no_events(children.drop_last(), keys, refreshed);
        let last = crate::sync::repair_link(children.last(), keys, refreshed);
        assert(no_events(last));
        lemma_no_events_append(repair_links(children.drop_last(), keys, refreshed), last);
    }
}

/// The same holds of the logs validation builds from the two: they hold the
/// same events (as a collection; the order may differ).
pub proof fn law_incremental_log_events_match_full_pull(
    project: Project,
    old_pairs: Seq<(Issue, Vec<Comment>)>,
    new_pairs: Seq<(Issue, Vec<Comment>)>,
    refreshed: Set<String>,
    x: OcelEventRecord,
)
    requires
        old_pairs.len() == new_pairs.len(),
        forall|i: int| 0 <= i < old_pairs.len() ==> (#[trigger] old_pairs[i]).0.issue_key@ == new_pairs[i].0.issue_key@,
        forall|i: int| 0 <= i < old_pairs.len() ==> no_slash((#[trigger] old_pairs[i]).0.issue_key@),
        forall|i: int|
            0 <= i < old_pairs.len() && !key_set(refreshed).contains((#[trigger] old_pairs[i]).0.issue_key@)
                ==> old_pairs[i] == new_pairs[i],
    ensures
        ({
            let old_full = apply_ops(empty_view(), project_all_ops(project, old_pairs));
            let keys = key_index(issues_of(new_pairs));
            let base = restaged(pruned_view(built_log(old_full), refreshed));
            let incremental = apply_ops(
                base,
                project_ops(project) + refreshed_ops(project, new_pairs, keys, refreshed) + repair_links(
                    issues_of(new_pairs),
                    keys,
                    refreshed,
                ),
            );
            let full = apply_ops(empty_view(), project_all_ops(project, new_pairs));
            built_log(incremental).events.contains(x) <==> built_log(full).events.contains(x)
        }),
{
    let old_full = apply_ops(empty_view(), project_all_ops(project, old_pairs));
    let keys = key_index(issues_of(new_pairs));
    let base = restaged(pruned_view(built_log(old_full), refreshed));
    let incremental = apply_ops(
        base,
        project_ops(project) + refreshed_ops(project, new_pairs, keys, refreshed) + repair_links(issues_of(new_pairs), keys, refreshed),
    );
    let full = apply_ops(empty_view(), project_all_ops(project, new_pairs));
    let e = restaged_event(x);
    law_incremental_events_match_full_pull(project, old_pairs, new_pairs, refreshed, e);
    let bi = built_log(incremental).events;
    let bf = built_log(full).events;
    if bi.contains(x) {
        let k = choose|k: int| 0 <= k < bi.len() && bi[k] == x;
        lemma_event_round_trip(incremental.events[k]);
        assert(incremental.events[k] == e);
        assert(full.events.contains(e));
        let j = choose|j: int| 0 <= j < full.events.len() && full.events[j] == e;
        assert(bf[j] == built_event(e));
        assert(built_event(e) == x) by {
            assert(built_event(incremental.events[k]) == x);
        }
    }
    if bf.contains(x) {
        let k = choose|k: int| 0 <= k < bf.len() && bf[k] == x;
        lemma_event_round_trip(full.events[k]);
        assert(full.events[k] == e);
        assert(incremental.events.contains(e));
        let j = choose|j: int| 0 <= j < incremental.events.len() && incremental.events[j] == e;
        assert(bi[j] == built_event(e));
        assert(built_event(e) == x) by {
            assert(built_event(full.events[k]) == x);
        }
    }
}

/// The events that issues `lo` (inclusive) to `hi` (exclusive) of `pairs` stage, in order.
pub open spec fn issues_events(project: Project, pairs: Seq<(Issue, Vec<Comment>)>, lo: int, hi: int) -> Seq<EventRecord>
    decreases hi - lo,
{
    if hi <= lo {
        Seq::empty()
    } else {
        issues_events(project, pairs, lo, hi - 1) + issue_events(project, pairs[hi - 1].0, pairs[hi - 1].1@)
    }
}

proof fn lemma_issues_events_same(project: Project, a: Seq<(Issue, Vec<Comment>)>, b: Seq<(Issue, Vec<Comment>)>, lo: int, hi: int)
    requires
        forall|i: int| lo <= i < hi ==> #[trigger] a[i] == b[i],
    ensures
        issues_events(project, a, lo, hi) == issues_events(project, b, lo, hi),
    decreases hi - lo,
{
    if hi > lo {
        lemma_issues_events_same(project, a, b, lo, hi - 1);
        assert(a[hi - 1] == b[hi - 1]);
    }
}

proof fn lemma_issues_events_split(project: Project, s: Seq<(Issue, Vec<Comment>)>, lo: int, m: int, hi: int)
    requires
        lo <= m <= hi,
    ensures
        issues_events(project, s, lo, hi) == issues_events(project, s, lo, m) + issues_events(project, s, m, hi),
    decreases hi - m,
{
    if hi == m {
        assert(issues_events(project, s, lo, m) + Seq::<EventRecord>::empty() =~= issues_events(project, s, lo, m));
    } else {
        lemma_issues_events_split(project, s, lo, m, hi - 1);
        let x = issue_events(project, s[hi - 1].0, s[hi - 1].1@);
        assert(issues_events(project, s, lo, m) + issues_events(project, s, m, hi - 1) + x =~= issues_events(project, s, lo, m)
            + (issues_events(project, s, m, hi - 1) + x));
    }
}

proof fn lemma_pairs_issues_events(project: Project, pairs: Seq<(Issue, Vec<Comment>)>, keys: Map<u64, Seq<char>>)
    ensures
        op_events(pairs_ops(project, pairs, keys)) == issues_events(project, pairs, 0, pairs.len() as int),
    decreases pairs.len(),
{
    if pairs.len() > 0 {
        let front = pairs.drop_last();
        lemma_pairs_issues_events(project, front, keys);
        let n = pairs.len() - 1;
        lemma_op_events_append(pairs_ops(project, front, keys), issue_ops(project, pairs[n].0, pairs[n].1@, keys, false));
        lemma_issue_events(project, pairs[n].0, pairs[n].1@, keys);
        assert forall|i: int| 0 <= i < n implies #[trigger] front[i] == pairs[i] by {}
        lemma_issues_events_same(project, front, pairs, 0, n);
    }
}

proof fn lemma_refreshed_issues_events(
    project: Project,
    pairs: Seq<(Issue, Vec<Comment>)>,
    keys: Map<u64, Seq<char>>,
    refreshed: Set<String>,
    m: int,
)
    requires
        0 <= m,
        forall|i: int| 0 <= i < pairs.len() ==> (key_set(refreshed).contains((#[trigger] pairs[i]).0.issue_key@) <==> i >= m),
    ensures
        op_events(refreshed_ops(project, pairs, keys, refreshed)) == issues_events(project, pairs, m, pairs.len() as int),
    decreases pairs.len(),
{
    if pairs.len() > 0 {
        let front = pairs.drop_last();
        let n = pairs.len() - 1;
        assert forall|i: int| 0 <= i < front.len() implies (key_set(refreshed).contains((#[trigger] front[i]).0.issue_key@) <==> i >= m) by {
            assert(front[i] == pairs[i]);
        }
        lemma_refreshed_issues_events(project, front, keys, refreshed, m);
        assert forall|i: int| m <= i < n implies #[trigger] front[i] == pairs[i] by {}
        lemma_issues_events_same(project, front, pairs, m, n);
        assert(pairs.last() == pairs[n]);
        let on = key_set(refreshed).contains(pairs[n].0.issue_key@);
        let b = if on { issue_ops(project, pairs[n].0, pairs[n].1@, keys, false) } else { Seq::<StagingOp>::empty() };
        lemma_op_events_append(refreshed_ops(project, front, keys, refreshed), b);
        lemma_issue_events(project, pairs[n].0, pairs[n].1@, keys);
        if on {
            assert(n >= m);
        } else {
            assert(op_events(b) =~= Seq::<EventRecord>::empty());
            assert(n < m);
            assert(op_events(refreshed_ops(project, front, keys, refreshed)) + op_events(b) =~= issues_events(
                project,
                front,
                m,
                n,
            ));
        }
    }
}

proof fn lemma_filter_all<A>(s: Seq<A>, pred: spec_fn(A) -> bool)
    requires
        forall|i: int| 0 <= i < s.len() ==> pred(#[trigger] s[i]),
    ensures
        s.filter(pred) == s,
    decreases s.len(),
{
    reveal(Seq::filter);
    if s.len() > 0 {
        let front = s.drop_last();
        assert forall|i: int| 0 <= i < front.len() implies pred(#[trigger] front[i]) by {
            assert(front[i] == s[i]);
        }
        lemma_filter_all(front, pred);
        assert(pred(s[s.len() - 1]));
        assert(front.push(s.last()) =~= s);
    }
}

proof fn lemma_filter_none<A>(s: Seq<A>, pred: spec_fn(A) -> bool)
    requires
        forall|i: int| 0 <= i < s.len() ==> !pred(#[trigger] s[i]),
    ensures
        s.filter(pred) == Seq::<A>::empty(),
    decreases s.len(),
{
    reveal(Seq::filter);
    if s.len() > 0 {
        let front = s.drop_last();
        assert forall|i: int| 0 <= i < front.len() implies !pred(#[trigger] front[i]) by {
            assert(front[i] == s[i]);
        }
        lemma_filter_none(front, pred);
        assert(!pred(s[s.len() - 1]));
    }
}

/// Survivors among the events of issues `lo` to `hi`, when exactly the issues from `m` on are refreshed.
proof fn lemma_survivors(
    project: Project,
    pairs: Seq<(Issue, Vec<Comment>)>,
    refreshed: Set<String>,
    m: int,
    hi: int,
)
    requires
        0 <= m <= hi <= pairs.len(),
        forall|i: int| 0 <= i < pairs.len() ==> no_slash((#[trigger] pairs[i]).0.issue_key@),
        forall|i: int| 0 <= i < pairs.len() ==> (key_set(refreshed).contains((#[trigger] pairs[i]).0.issue_key@) <==> i >= m),
    ensures
        issues_events(project, pairs, 0, hi).filter(|e: EventRecord| survives(e.id, refreshed)) == issues_events(project, pairs, 0, m),
    decreases hi,
{
    let pred = |e: EventRecord| survives(e.id, refreshed);
    if hi == 0 {
        reveal(Seq::filter);
    } else {
        let x = issue_events(project, pairs[hi - 1].0, pairs[hi - 1].1@);
        let key = pairs[hi - 1].0.issue_key@;
        assert(no_slash(key));
        assert forall|j: int| 0 <= j < x.len() implies before_first_slash(#[trigger] x[j].id) == key by {
            assert(x.contains(x[j]));
            lemma_issue_keyed(project, pairs[hi - 1].0, pairs[hi - 1].1@, x[j]);
        }
        Seq::filter_distributes_over_add(issues_events(project, pairs, 0, hi - 1), x, pred);
        if hi - 1 >= m {
            lemma_survivors(project, pairs, refreshed, m, hi - 1);
            assert(key_set(refreshed).contains(key));
            assert forall|j: int| 0 <= j < x.len() implies !pred(#[trigger] x[j]) by {
                assert(before_first_slash(x[j].id) == key);
            }
            lemma_filter_none(x, pred);
            assert(issues_events(project, pairs, 0, m) + Seq::<EventRecord>::empty() =~= issues_events(project, pairs, 0, m));
        } else {
            assert(hi == m);
            assert(!key_set(refreshed).contains(key));
            assert forall|j: int| 0 <= j < x.len() implies pred(#[trigger] x[j]) by {
                assert(before_first_slash(x[j].id) == key);
            }
            lemma_filter_all(x, pred);
            lemma_survivors_all(project, pairs, refreshed, hi - 1);
        }
    }
}

/// Below the first refreshed issue every event survives.
proof fn lemma_survivors_all(project: Project, pairs: Seq<(Issue, Vec<Comment>)>, refreshed: Set<String>, hi: int)
    requires
        0 <= hi <= pairs.len(),
        forall|i: int| 0 <= i < pairs.len() ==> no_slash((#[trigger] pairs[i]).0.issue_key@),
        forall|i: int| 0 <= i < hi ==> !key_set(refreshed).contains((#[trigger] pairs[i]).0.issue_key@),
    ensures
        issues_events(project, pairs, 0, hi).filter(|e: EventRecord| survives(e.id, refreshed)) == issues_events(project, pairs, 0, hi),
    decreases hi,
{
    let pred = |e: EventRecord| survives(e.id, refreshed);
    if hi == 0 {
        reveal(Seq::filter);
    } else {
        lemma_survivors_all(project, pairs, refreshed, hi - 1);
        let x = issue_events(project, pairs[hi - 1].0, pairs[hi - 1].1@);
        let key = pairs[hi - 1].0.issue_key@;
        assert(no_slash(key));
        assert(!key_set(refreshed).contains(key));
        assert forall|j: int| 0 <= j < x.len() implies pred(#[trigger] x[j]) by {
            assert(x.contains(x[j]));
            lemma_issue_keyed(project, pairs[hi - 1].0, pairs[hi - 1].1@, x[j]);
        }
        lemma_filter_all(x, pred);
        Seq::filter_distributes_over_add(issues_events(project, pairs, 0, hi - 1), x, pred);
    }
}

/// Events through validation, pruned and re-staged: the surviving events, in order.
proof fn lemma_base_event_order(s: Seq<EventRecord>, refreshed: Set<String>)
    ensures
        s.map_values(|e: EventRecord| built_event(e)).filter(|x: OcelEventRecord| survives(x.id, refreshed)).map_values(
            |x: OcelEventRecord| restaged_event(x),
        ) == s.filter(|e: EventRecord| survives(e.id, refreshed)),
    decreases s.len(),
{
    reveal(Seq::filter);
    let g = |e: EventRecord| built_event(e);
    let pg = |x: OcelEventRecord| survives(x.id, refreshed);
    let ps = |e: EventRecord| survives(e.id, refreshed);
    let r = |x: OcelEventRecord| restaged_event(x);
    if s.len() > 0 {
        let front = s.drop_last();
        lemma_base_event_order(front, refreshed);
        let m = s.map_values(g);
        assert(m.drop_last() =~= front.map_values(g));
        assert(m.last() == built_event(s.last()));
        lemma_event_round_trip(s.last());
        let f = front.map_values(g).filter(pg);
        if ps(s.last()) {
            assert(m.filter(pg) == f.push(built_event(s.last())));
            assert(f.push(built_event(s.last())).map_values(r) =~= f.map_values(r).push(s.last()));
        } else {
            assert(m.filter(pg) == f);
        }
    } else {
        assert(s.map_values(g) =~= Seq::<OcelEventRecord>::empty());
    }
}

/// When every refreshed issue comes after every issue left alone, the
/// incremental pull stages the full re-pull's events in the same order.
///
/// Under the assumptions of `law_incremental_events_match_full_pull`, and
/// with the refreshed issues exactly those from position `m` on, the
/// incremental pull's events equal the full re-pull's events as a sequence.
/// (Otherwise the kept issues' events come first, so the order differs.)
#[verifier::spinoff_prover]
#[verifier::rlimit(60)]
pub proof fn law_incremental_event_order(
    project: Project,
    old_pairs: Seq<(Issue, Vec<Comment>)>,
    new_pairs: Seq<(Issue, Vec<Comment>)>,
    refreshed: Set<String>,
    m: int,
)
    requires
        old_pairs.len() == new_pairs.len(),
        0 <= m <= old_pairs.len(),
        forall|i: int| 0 <= i < old_pairs.len() ==> (#[trigger] old_pairs[i]).0.issue_key@ == new_pairs[i].0.issue_key@,
        forall|i: int| 0 <= i < old_pairs.len() ==> no_slash((#[trigger] old_pairs[i]).0.issue_key@),
        forall|i: int|
            0 <= i < old_pairs.len() ==> (key_set(refreshed).contains((#[trigger] old_pairs[i]).0.issue_key@) <==> i >= m),
        forall|i: int| 0 <= i < m ==> #[trigger] old_pairs[i] == new_pairs[i],
    ensures
        ({
            let old_full = apply_ops(empty_view(), project_all_ops(project, old_pairs));
            let keys = key_index(issues_of(new_pairs));
            let base = restaged(pruned_view(built_log(old_full), refreshed));
            let incremental = apply_ops(
                base,
                project_ops(project) + refreshed_ops(project, new_pairs, keys, refreshed) + repair_links(
                    issues_of(new_pairs),
                    keys,
                    refreshed,
                ),
            );
            let full = apply_ops(empty_view(), project_all_ops(project, new_pairs));
            incremental.events == full.events
        }),
{
    let n = old_pairs.len() as int;
    let old_full = apply_ops(empty_view(), project_all_ops(project, old_pairs));
    let keys = key_index(issues_of(new_pairs));
    let old_keys = key_index(issues_of(old_pairs));
    let base = restaged(pruned_view(built_log(old_full), refreshed));
    let head = project_ops(project);
    let mid = refreshed_ops(project, new_pairs, keys, refreshed);
    let tail = repair_links(issues_of(new_pairs), keys, refreshed);
    let full = apply_ops(empty_view(), project_all_ops(project, new_pairs));
    // Both logs' events, piece by piece.
    assert(no_events(head));
    lemma_no_events_none(head);
    lemma_repair_no_events(issues_of(new_pairs), keys, refreshed);
    lemma_no_events_none(tail);
    lemma_op_events_append(head, mid);
    lemma_op_events_append(head + mid, tail);
    lemma_apply_events(base, head + mid + tail);
    lemma_apply_events(empty_view(), project_all_ops(project, new_pairs));
    lemma_op_events_append(head, pairs_ops(project, new_pairs, keys));
    lemma_apply_events(empty_view(), project_all_ops(project, old_pairs));
    lemma_op_events_append(head, pairs_ops(project, old_pairs, old_keys));
    lemma_pairs_issues_events(project, new_pairs, keys);
    lemma_pairs_issues_events(project, old_pairs, old_keys);
    assert(full.events =~= issues_events(project, new_pairs, 0, n));
    assert(old_full.events =~= issues_events(project, old_pairs, 0, n));
    // The base: the events of the issues left alone.
    lemma_restaged_events(pruned_view(built_log(old_full), refreshed));
    lemma_base_event_order(old_full.events, refreshed);
    lemma_survivors(project, old_pairs, refreshed, m, n);
    assert(base.events == issues_events(project, old_pairs, 0, m));
    lemma_issues_events_same(project, old_pairs, new_pairs, 0, m);
    // The refreshed issues, in order.
    assert forall|i: int| 0 <= i < new_pairs.len() implies (key_set(refreshed).contains((#[trigger] new_pairs[i]).0.issue_key@)
        <==> i >= m) by {
        assert(old_pairs[i].0.issue_key@ == new_pairs[i].0.issue_key@);
    }
    lemma_refreshed_issues_events(project, new_pairs, keys, refreshed, m);
    lemma_issues_events_split(project, new_pairs, 0, m, n);
    assert(base.events + op_events(head + mid + tail) =~= issues_events(project, new_pairs, 0, m) + issues_events(
        project,
        new_pairs,
        m,
        n,
    ));
}

} // verus!
