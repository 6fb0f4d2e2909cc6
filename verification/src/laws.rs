//! Properties of the mapping as a whole.

use vstd::prelude::*;

use crate::mapper::{
    change_event_id, change_ops, changes_ops, comment_event, comment_ops, comments_ops, created_event,
    initial_op, initial_ops, issue_ops, parent_ops, tag_ops, tags_ops, task_ops, user_ops,
    spec_change_kind, change_attributes,
};
use crate::counts::count_of;
use crate::mapper::count_skipped;
use crate::models::{ChangeLogEntry, Comment, Issue, Named, Project};
use crate::staging::StagingOp;
use crate::sync::{key_set, survives};
use crate::text::{before_first_slash, lemma_key_then_slash, no_slash};

verus! {

/// Whether every event among `ops` has an id that belongs to issue `key`.
pub open spec fn events_keyed(ops: Seq<StagingOp>, key: Seq<char>) -> bool {
    forall|i: int| 0 <= i < ops.len() ==> (#[trigger] ops[i] matches StagingOp::Event { event } ==> before_first_slash(event.id) == key)
}

/// Whether `ops` stage no event.
pub open spec fn no_events(ops: Seq<StagingOp>) -> bool {
    forall|i: int| 0 <= i < ops.len() ==> !(#[trigger] ops[i] is Event)
}

/// Whether no event among `ops` carries a `body` attribute.
pub open spec fn no_bodies(ops: Seq<StagingOp>) -> bool {
    forall|i: int| 0 <= i < ops.len() ==> (#[trigger] ops[i] matches StagingOp::Event { event } ==> forall|j: int|
        0 <= j < event.attributes.len() ==> #[trigger] event.attributes[j].0 != "body"@)
}

proof fn lemma_keyed_append(a: Seq<StagingOp>, b: Seq<StagingOp>, key: Seq<char>)
    requires
        events_keyed(a, key),
        events_keyed(b, key),
    ensures
        events_keyed(a + b, key),
{
    assert forall|i: int| 0 <= i < (a + b).len() implies (#[trigger] (a + b)[i] matches StagingOp::Event { event } ==> before_first_slash(event.id) == key) by {
        if i < a.len() {
            assert((a + b)[i] == a[i]);
        } else {
            assert((a + b)[i] == b[i - a.len()]);
        }
    }
}

proof fn lemma_no_bodies_append(a: Seq<StagingOp>, b: Seq<StagingOp>)
    requires
        no_bodies(a),
        no_bodies(b),
    ensures
        no_bodies(a + b),
{
    assert forall|i: int| 0 <= i < (a + b).len() implies (#[trigger] (a + b)[i] matches StagingOp::Event { event } ==> forall|j: int|
        0 <= j < event.attributes.len() ==> #[trigger] event.attributes[j].0 != "body"@) by {
        if i < a.len() {
            assert((a + b)[i] == a[i]);
        } else {
            assert((a + b)[i] == b[i - a.len()]);
        }
    }
}

pub(crate) proof fn lemma_no_events_append(a: Seq<StagingOp>, b: Seq<StagingOp>)
    requires
        no_events(a),
        no_events(b),
    ensures
        no_events(a + b),
{
    assert forall|i: int| 0 <= i < (a + b).len() implies !(#[trigger] (a + b)[i] is Event) by {
        if i < a.len() {
            assert((a + b)[i] == a[i]);
        } else {
            assert((a + b)[i] == b[i - a.len()]);
        }
    }
}

proof fn lemma_tags_no_events(task: Seq<char>, prefix: Seq<char>, object_type: Seq<char>, qualifier: Seq<char>, tags: Seq<Named>)
    ensures
        no_events(tags_ops(task, prefix, object_type, qualifier, tags)),
    decreases tags.len(),
{
    if tags.len() > 0 {
        lemma_tags_no_events(task, prefix, object_type, qualifier, tags.drop_last());
        let t = tag_ops(task, prefix, object_type, qualifier, tags.last());
        assert(no_events(t));
        lemma_no_events_append(tags_ops(task, prefix, object_type, qualifier, tags.drop_last()), t);
    }
}

/// The staging of everything but events: task, links, tags, users, initial values.
pub(crate) proof fn lemma_issue_head_no_events(project: Project, issue: Issue, comments: Seq<Comment>, keys: Map<u64, Seq<char>>)
    ensures
        no_events(task_ops(project, issue)),
        no_events(parent_ops(issue, keys)),
        no_events(tags_ops(issue.issue_key@, "milestone:"@, "milestone"@, "assigned to"@, issue.milestone@)),
        no_events(tags_ops(issue.issue_key@, "category:"@, "category"@, "categorized as"@, issue.category@)),
        no_events(user_ops(issue.created_user)),
        no_events(initial_ops(issue, comments)),
{
    let task = issue.issue_key@;
    lemma_tags_no_events(task, "milestone:"@, "milestone"@, "assigned to"@, issue.milestone@);
    lemma_tags_no_events(task, "category:"@, "category"@, "categorized as"@, issue.category@);
    let a = initial_op(task, issue.created, "status"@, crate::mapper::initial_value(comments, "status"@, Some(issue.status.name@)));
    let b = initial_op(task, issue.created, "priority"@, crate::mapper::initial_value(comments, "priority"@, Some(issue.priority.name@)));
    let c = initial_op(task, issue.created, "assignee"@, crate::mapper::initial_value(comments, "assignee"@, crate::mapper::assignee_name(issue)));
    let d = initial_op(task, issue.created, "due_date"@, crate::mapper::initial_value(comments, "due_date"@, crate::mapper::due_date_text(issue)));
    assert(no_events(a) && no_events(b) && no_events(c) && no_events(d));
    lemma_no_events_append(a, b);
    lemma_no_events_append(a + b, c);
    lemma_no_events_append(a + b + c, d);
}

proof fn lemma_no_events_keyed(ops: Seq<StagingOp>, key: Seq<char>)
    requires
        no_events(ops),
    ensures
        events_keyed(ops, key),
        no_bodies(ops),
{
    assert forall|i: int| 0 <= i < ops.len() implies (#[trigger] ops[i] matches StagingOp::Event { event } ==> before_first_slash(event.id) == key) by {
        assert(!(ops[i] is Event));
    }
    assert forall|i: int| 0 <= i < ops.len() implies (#[trigger] ops[i] matches StagingOp::Event { event } ==> forall|j: int|
        0 <= j < event.attributes.len() ==> #[trigger] event.attributes[j].0 != "body"@) by {
        assert(!(ops[i] is Event));
    }
}

/// The first character of each literal that follows an issue key in an event id.
proof fn lemma_id_literals()
    ensures
        "/created"@.len() > 0 && "/created"@[0] == '/',
        "/comment/"@.len() > 0 && "/comment/"@[0] == '/',
        "/change/"@.len() > 0 && "/change/"@[0] == '/',
{
    reveal_strlit("/created");
    reveal_strlit("/comment/");
    reveal_strlit("/change/");
}

/// The attribute names of events, none of them `body`.
proof fn lemma_attribute_literals()
    ensures
        "_source"@ != "body"@,
        "old_value"@ != "body"@,
        "new_value"@ != "body"@,
{
    reveal_strlit("_source");
    reveal_strlit("old_value");
    reveal_strlit("new_value");
    reveal_strlit("body");
    assert("_source"@[0] != "body"@[0]);
    assert("old_value"@.len() != "body"@.len());
    assert("new_value"@.len() != "body"@.len());
}

proof fn lemma_changes_keyed(task: Seq<char>, comment: Comment, n: nat)
    requires
        no_slash(task),
        n <= comment.change_log@.len(),
    ensures
        events_keyed(changes_ops(task, comment, n), task),
        no_bodies(changes_ops(task, comment, n)),
    decreases n,
{
    if n > 0 {
        lemma_changes_keyed(task, comment, (n - 1) as nat);
        let change = comment.change_log@[n - 1];
        let ops = change_ops(task, comment, (n - 1) as nat, change);
        lemma_id_literals();
        lemma_attribute_literals();
        match spec_change_kind(change.field@) {
            Some((event_type, attr)) => {
                let id = change_event_id(task, comment, (n - 1) as nat);
                let rest = "/change/"@ + crate::text::decimal(comment.id as nat) + "/"@ + crate::text::decimal((n - 1) as nat);
                assert(id =~= task + rest);
                assert(rest[0] == '/');
                lemma_key_then_slash(task, rest);
                let attrs = change_attributes(change);
                assert forall|j: int| 0 <= j < attrs.len() implies #[trigger] attrs[j].0 != "body"@ by {
                    if j == 0 {
                    } else if change.original_value is Some && j == 1 {
                    } else {
                    }
                }
                assert(events_keyed(ops, task));
                assert(no_bodies(ops));
            },
            None => {
                assert(ops =~= Seq::<StagingOp>::empty());
            },
        }
        lemma_keyed_append(changes_ops(task, comment, (n - 1) as nat), ops, task);
        lemma_no_bodies_append(changes_ops(task, comment, (n - 1) as nat), ops);
    }
}

proof fn lemma_comment_keyed(task: Seq<char>, comment: Comment, bodies: bool)
    requires
        no_slash(task),
    ensures
        events_keyed(comment_ops(task, comment, bodies), task),
        !bodies ==> no_bodies(comment_ops(task, comment, bodies)),
{
    let users = user_ops(comment.created_user);
    assert(no_events(users));
    lemma_no_events_keyed(users, task);
    let event = if crate::mapper::has_text(comment) {
        seq![StagingOp::Event { event: comment_event(task, comment, bodies) }]
    } else {
        Seq::<StagingOp>::empty()
    };
    lemma_id_literals();
    let rest = "/comment/"@ + crate::text::decimal(comment.id as nat);
    assert(comment_event(task, comment, bodies).id =~= task + rest);
    lemma_key_then_slash(task, rest);
    assert(events_keyed(event, task));
    if !bodies {
        assert(no_bodies(event));
    }
    lemma_changes_keyed(task, comment, comment.change_log@.len());
    lemma_keyed_append(users, event, task);
    lemma_keyed_append(users + event, changes_ops(task, comment, comment.change_log@.len()), task);
    if !bodies {
        lemma_no_bodies_append(users, event);
        lemma_no_bodies_append(users + event, changes_ops(task, comment, comment.change_log@.len()));
    }
}

proof fn lemma_comments_keyed(task: Seq<char>, comments: Seq<Comment>, bodies: bool)
    requires
        no_slash(task),
    ensures
        events_keyed(comments_ops(task, comments, bodies), task),
        !bodies ==> no_bodies(comments_ops(task, comments, bodies)),
    decreases comments.len(),
{
    if comments.len() > 0 {
        lemma_comments_keyed(task, comments.drop_last(), bodies);
        lemma_comment_keyed(task, comments.last(), bodies);
        lemma_keyed_append(comments_ops(task, comments.drop_last(), bodies), comment_ops(task, comments.last(), bodies), task);
        if !bodies {
            lemma_no_bodies_append(comments_ops(task, comments.drop_last(), bodies), comment_ops(task, comments.last(), bodies));
        }
    }
}

/// Every event staged for an issue belongs to that issue: the part of its id
/// before the first `/` is the issue key (for a key without `/`). This is
/// what lets incremental sync prune an issue's events by key.
pub proof fn law_events_belong_to_their_issue(
    project: Project,
    issue: Issue,
    comments: Seq<Comment>,
    keys: Map<u64, Seq<char>>,
    bodies: bool,
)
    requires
        no_slash(issue.issue_key@),
    ensures
        events_keyed(issue_ops(project, issue, comments, keys, bodies), issue.issue_key@),
        !bodies ==> no_bodies(issue_ops(project, issue, comments, keys, bodies)),
{
    let task = issue.issue_key@;
    lemma_issue_head_no_events(project, issue, comments, keys);
    let p0 = task_ops(project, issue);
    let p1 = parent_ops(issue, keys);
    let p2 = tags_ops(task, "milestone:"@, "milestone"@, "assigned to"@, issue.milestone@);
    let p3 = tags_ops(task, "category:"@, "category"@, "categorized as"@, issue.category@);
    let p4 = user_ops(issue.created_user);
    let p5 = seq![StagingOp::Event { event: created_event(project, issue) }];
    let p6 = initial_ops(issue, comments);
    let p7 = comments_ops(task, comments, bodies);
    lemma_no_events_append(p0, p1);
    lemma_no_events_append(p0 + p1, p2);
    lemma_no_events_append(p0 + p1 + p2, p3);
    lemma_no_events_append(p0 + p1 + p2 + p3, p4);
    lemma_no_events_keyed(p0 + p1 + p2 + p3 + p4, task);
    lemma_id_literals();
    lemma_key_then_slash(task, "/created"@);
    assert(events_keyed(p5, task));
    assert(no_bodies(p5));
    lemma_no_events_keyed(p6, task);
    lemma_comments_keyed(task, comments, bodies);
    let head = p0 + p1 + p2 + p3 + p4;
    lemma_keyed_append(head, p5, task);
    lemma_keyed_append(head + p5, p6, task);
    lemma_keyed_append(head + p5 + p6, p7, task);
    lemma_no_bodies_append(head, p5);
    lemma_no_bodies_append(head + p5, p6);
    if !bodies {
        lemma_no_bodies_append(head + p5 + p6, p7);
    }
    assert(issue_ops(project, issue, comments, keys, bodies) =~= head + p5 + p6 + p7);
}

/// Refreshing an issue prunes exactly its events: an event staged for an
/// issue survives pruning if and only if the issue is not being refreshed.
pub proof fn law_pruning_follows_issue_keys(
    project: Project,
    issue: Issue,
    comments: Seq<Comment>,
    keys: Map<u64, Seq<char>>,
    bodies: bool,
    refreshed: Set<String>,
)
    requires
        no_slash(issue.issue_key@),
    ensures
        forall|i: int|
            0 <= i < issue_ops(project, issue, comments, keys, bodies).len() ==> (
            #[trigger] issue_ops(project, issue, comments, keys, bodies)[i] matches StagingOp::Event { event }
                ==> (survives(event.id, refreshed) <==> !key_set(refreshed).contains(issue.issue_key@))),
{
    law_events_belong_to_their_issue(project, issue, comments, keys, bodies);
}


/// How many of `entries` have field `field`.
pub open spec fn occurrences(entries: Seq<ChangeLogEntry>, field: Seq<char>) -> nat
    decreases entries.len(),
{
    if entries.len() == 0 {
        0
    } else {
        occurrences(entries.drop_last(), field) + if entries.last().field@ == field { 1nat } else { 0nat }
    }
}

/// How many of `entries` have a field outside the mapping whitelist.
pub open spec fn unlisted(entries: Seq<ChangeLogEntry>) -> nat
    decreases entries.len(),
{
    if entries.len() == 0 {
        0
    } else {
        unlisted(entries.drop_last()) + if spec_change_kind(entries.last().field@) is None { 1nat } else { 0nat }
    }
}

/// How many of `ops` stage an event.
pub open spec fn event_count(ops: Seq<StagingOp>) -> nat
    decreases ops.len(),
{
    if ops.len() == 0 {
        0
    } else {
        event_count(ops.drop_last()) + if ops.last() is Event { 1nat } else { 0nat }
    }
}

proof fn lemma_event_count_append(a: Seq<StagingOp>, b: Seq<StagingOp>)
    ensures
        event_count(a + b) == event_count(a) + event_count(b),
    decreases b.len(),
{
    if b.len() == 0 {
        assert(a + b == a);
    } else {
        lemma_event_count_append(a, b.drop_last());
        assert((a + b).drop_last() == a + b.drop_last());
        assert((a + b).last() == b.last());
    }
}

/// Skipped fields are counted, not dropped silently: after counting
/// `entries`, the count of a field outside the whitelist grew by its number
/// of occurrences, and a whitelisted field is never counted.
pub proof fn law_skipped_fields_are_counted(counts: Map<Seq<char>, nat>, entries: Seq<ChangeLogEntry>, field: Seq<char>)
    ensures
        count_of(count_skipped(counts, entries), field) == count_of(counts, field) + if spec_change_kind(field) is None {
            occurrences(entries, field)
        } else {
            0
        },
    decreases entries.len(),
{
    if entries.len() > 0 {
        law_skipped_fields_are_counted(counts, entries.drop_last(), field);
    }
}

/// Every changeLog entry of a comment is accounted for: each whitelisted
/// entry stages exactly one change event, each other entry is counted as
/// skipped, so change events plus skipped entries make up the whole log.
pub proof fn law_every_change_is_staged_or_counted(task: Seq<char>, comment: Comment, n: nat)
    requires
        n <= comment.change_log@.len(),
    ensures
        event_count(changes_ops(task, comment, n)) + unlisted(comment.change_log@.take(n as int)) == n,
    decreases n,
{
    if n > 0 {
        law_every_change_is_staged_or_counted(task, comment, (n - 1) as nat);
        let change = comment.change_log@[n - 1];
        let ops = change_ops(task, comment, (n - 1) as nat, change);
        lemma_event_count_append(changes_ops(task, comment, (n - 1) as nat), ops);
        assert(comment.change_log@.take(n as int).drop_last() == comment.change_log@.take(n - 1));
        match spec_change_kind(change.field@) {
            Some(_) => {
                let update = match change.new_value {
                    Some(v) => seq![StagingOp::Attribute { id: task, name: spec_change_kind(change.field@).unwrap().1, value: v@, time: comment.created }],
                    None => Seq::<StagingOp>::empty(),
                };
                assert(event_count(update) == 0) by {
                    if update.len() > 0 {
                        assert(update.drop_last() =~= Seq::<StagingOp>::empty());
                        assert(!(update.last() is Event));
                        assert(event_count(update.drop_last()) == 0);
                    }
                }
                assert(ops.drop_last() == update);
            },
            None => {
                assert(ops =~= Seq::<StagingOp>::empty());
            },
        }
    }
}

} // verus!
