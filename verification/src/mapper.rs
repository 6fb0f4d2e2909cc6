//! Backlog data → OCEL 2.0 mapping, staged into an `ocel_etl` staging log.
//!
//! Event types: `task_created`, `comment_added`, and — from `changeLog`
//! entries — `status_changed` / `assignee_changed` / `priority_changed` /
//! `milestone_changed` / `due_date_changed`. Other changeLog fields are
//! skipped and counted.
//!
//! Object types: `task` (with `status` / `priority` / `assignee` / `due_date`
//! as dynamic attributes, initial values reconstructed from the first change's
//! `originalValue`), `user`, `project`, `milestone`, `category`.

use vstd::prelude::*;

use crate::models::{ChangeLogEntry, Comment, Issue, Named, Project, Timestamp, User};
use chrono::DateTime;

use ocel_etl::StagingLog;

use crate::staging::{
    add_event, add_o2o, add_object_attribute, apply_ops, lemma_apply_none, lemma_apply_one,
    lemma_apply_ops_append, lemma_apply_ops_push, lemma_apply_two, empty_view, new_log, staged, upsert_object,
    EventRecord, StagedEvent, StagingOp,
};
use crate::counts::{count_of, FieldCounts};
use crate::text::{decimal, push_decimal, str_eq};
use std::collections::HashMap;

verus! {

// ---------------------------------------------------------------------------
// What the mapping stages, as a sequence of staging-log calls.
// ---------------------------------------------------------------------------

/// (event type, dynamic attribute name) for a changeLog field; `None` for a
/// field outside the mapping whitelist.
pub open spec fn spec_change_kind(field: Seq<char>) -> Option<(Seq<char>, Seq<char>)> {
    if field == "status"@ {
        Some(("status_changed"@, "status"@))
    } else if field == "assigner"@ {
        Some(("assignee_changed"@, "assignee"@))
    } else if field == "priority"@ {
        Some(("priority_changed"@, "priority"@))
    } else if field == "milestone"@ {
        Some(("milestone_changed"@, "milestone"@))
    } else if field == "limitDate"@ {
        Some(("due_date_changed"@, "due_date"@))
    } else {
        None
    }
}

/// An object with a `name` attribute observed at the epoch.
pub open spec fn named_object_ops(id: Seq<char>, object_type: Seq<char>, name: Seq<char>) -> Seq<StagingOp> {
    seq![
        StagingOp::Upsert { id, object_type },
        StagingOp::Attribute { id, name: "name"@, value: name, time: Timestamp::epoch() },
    ]
}

/// The object id of a user: `user:<id>`.
pub open spec fn user_key(user: User) -> Seq<char> {
    "user:"@ + decimal(user.id as nat)
}

/// The staging of a user object.
pub open spec fn user_ops(user: User) -> Seq<StagingOp> {
    named_object_ops(user_key(user), "user"@, user.name@)
}

/// The object id of a milestone or category: `<prefix><id>`.
pub open spec fn tag_key(prefix: Seq<char>, tag: Named) -> Seq<char> {
    prefix + decimal(tag.id as nat)
}

/// A milestone or category object, linked from the task.
pub open spec fn tag_ops(
    task: Seq<char>,
    prefix: Seq<char>,
    object_type: Seq<char>,
    qualifier: Seq<char>,
    tag: Named,
) -> Seq<StagingOp> {
    named_object_ops(tag_key(prefix, tag), object_type, tag.name@).push(
        StagingOp::Link { source: task, target: tag_key(prefix, tag), qualifier },
    )
}

/// Every milestone or category of a task, in order.
pub open spec fn tags_ops(
    task: Seq<char>,
    prefix: Seq<char>,
    object_type: Seq<char>,
    qualifier: Seq<char>,
    tags: Seq<Named>,
) -> Seq<StagingOp>
    decreases tags.len(),
{
    if tags.len() == 0 {
        Seq::empty()
    } else {
        tags_ops(task, prefix, object_type, qualifier, tags.drop_last()) + tag_ops(
            task,
            prefix,
            object_type,
            qualifier,
            tags.last(),
        )
    }
}

/// The task object with its static attributes and its project link.
pub open spec fn task_ops(project: Project, issue: Issue) -> Seq<StagingOp> {
    let task = issue.issue_key@;
    seq![
        StagingOp::Upsert { id: task, object_type: "task"@ },
        StagingOp::Attribute { id: task, name: "summary"@, value: issue.summary@, time: Timestamp::epoch() },
        StagingOp::Attribute {
            id: task,
            name: "issue_type"@,
            value: issue.issue_type.name@,
            time: Timestamp::epoch(),
        },
        StagingOp::Link { source: task, target: project.project_key@, qualifier: "belongs to"@ },
    ]
}

/// The link from the parent task, when the parent is a known issue.
pub open spec fn parent_ops(issue: Issue, key_of: Map<u64, Seq<char>>) -> Seq<StagingOp> {
    match issue.parent_issue_id {
        Some(parent) => if key_of.contains_key(parent) {
            seq![StagingOp::Link { source: key_of[parent], target: issue.issue_key@, qualifier: "parent of"@ }]
        } else {
            Seq::empty()
        },
        None => Seq::empty(),
    }
}

/// The `task_created` event.
pub open spec fn created_event(project: Project, issue: Issue) -> EventRecord {
    let task = issue.issue_key@;
    EventRecord {
        id: task + "/created"@,
        event_type: "task_created"@,
        time: issue.created,
        attributes: Seq::empty(),
        relations: seq![
            (task, "created task"@),
            (user_key(issue.created_user), "creator"@),
            (project.project_key@, "belongs to project"@),
        ],
    }
}

/// Every changeLog entry of the comments, in order.
pub open spec fn all_entries(comments: Seq<Comment>) -> Seq<ChangeLogEntry>
    decreases comments.len(),
{
    if comments.len() == 0 {
        Seq::empty()
    } else {
        all_entries(comments.drop_last()) + comments.last().change_log@
    }
}

/// Whether a changeLog entry updates the dynamic attribute `attr`.
pub open spec fn updates(entry: ChangeLogEntry, attr: Seq<char>) -> bool {
    match spec_change_kind(entry.field@) {
        Some((_, a)) => a == attr,
        None => false,
    }
}

/// The entries that update `attr`, in order.
pub open spec fn changes_of(entries: Seq<ChangeLogEntry>, attr: Seq<char>) -> Seq<ChangeLogEntry>
    decreases entries.len(),
{
    if entries.len() == 0 {
        Seq::empty()
    } else if updates(entries.last(), attr) {
        changes_of(entries.drop_last(), attr).push(entries.last())
    } else {
        changes_of(entries.drop_last(), attr)
    }
}

/// The text of an optional string.
pub open spec fn opt_text(s: Option<String>) -> Option<Seq<char>> {
    match s {
        Some(s) => Some(s@),
        None => None,
    }
}

/// The value of `attr` at creation: the first change's original value when
/// the attribute ever changed, the current value otherwise.
pub open spec fn initial_value(
    comments: Seq<Comment>,
    attr: Seq<char>,
    current: Option<Seq<char>>,
) -> Option<Seq<char>> {
    let changes = changes_of(all_entries(comments), attr);
    if changes.len() > 0 {
        opt_text(changes[0].original_value)
    } else {
        current
    }
}

/// The RFC 3339 text of an instant (as `chrono` renders a UTC date-time).
pub uninterp spec fn rfc3339_text(secs: int, nanos: int) -> Seq<char>;

/// `DateTime::<Utc>::to_rfc3339` on the instant `t` names: its text is a
/// function of the instant alone.
#[verifier::external_body]
fn rfc3339(t: Timestamp) -> (text: String)
    ensures
        text@ == rfc3339_text(t.spec_secs() as int, t.spec_nanos() as int),
{
    DateTime::from_timestamp(t.secs(), t.nanos()).unwrap_or_default().to_rfc3339()
}

/// The RFC 3339 text of a timestamp.
pub open spec fn timestamp_text(t: Timestamp) -> Seq<char> {
    rfc3339_text(t.spec_secs() as int, t.spec_nanos() as int)
}

/// An initial dynamic attribute observation at creation time, when there is a value.
pub open spec fn initial_op(task: Seq<char>, created: Timestamp, attr: Seq<char>, value: Option<Seq<char>>) -> Seq<StagingOp> {
    match value {
        Some(v) => seq![StagingOp::Attribute { id: task, name: attr, value: v, time: created }],
        None => Seq::empty(),
    }
}

/// The current assignee name.
pub open spec fn assignee_name(issue: Issue) -> Option<Seq<char>> {
    match issue.assignee {
        Some(u) => Some(u.name@),
        None => None,
    }
}

/// The current due date text.
pub open spec fn due_date_text(issue: Issue) -> Option<Seq<char>> {
    match issue.due_date {
        Some(d) => Some(timestamp_text(d)),
        None => None,
    }
}

/// The initial values of `status`, `priority`, `assignee` and `due_date`.
pub open spec fn initial_ops(issue: Issue, comments: Seq<Comment>) -> Seq<StagingOp> {
    let task = issue.issue_key@;
    initial_op(task, issue.created, "status"@, initial_value(comments, "status"@, Some(issue.status.name@)))
        + initial_op(task, issue.created, "priority"@, initial_value(comments, "priority"@, Some(issue.priority.name@)))
        + initial_op(task, issue.created, "assignee"@, initial_value(comments, "assignee"@, assignee_name(issue)))
        + initial_op(task, issue.created, "due_date"@, initial_value(comments, "due_date"@, due_date_text(issue)))
}

/// Whether a comment carries non-empty text.
pub open spec fn has_text(comment: Comment) -> bool {
    match comment.content {
        Some(text) => text@.len() > 0,
        None => false,
    }
}

/// The `comment_added` event of a comment with text.
pub open spec fn comment_event(task: Seq<char>, comment: Comment, bodies: bool) -> EventRecord {
    EventRecord {
        id: task + "/comment/"@ + decimal(comment.id as nat),
        event_type: "comment_added"@,
        time: comment.created,
        attributes: if bodies {
            seq![("body"@, comment.content.unwrap()@)]
        } else {
            Seq::empty()
        },
        relations: seq![(task, "commented on"@), (user_key(comment.created_user), "commenter"@)],
    }
}

/// The id of the change event for entry `index` of a comment.
pub open spec fn change_event_id(task: Seq<char>, comment: Comment, index: nat) -> Seq<char> {
    task + "/change/"@ + decimal(comment.id as nat) + "/"@ + decimal(index)
}

/// The attributes of a change event: provenance, then old and new value when present.
pub open spec fn change_attributes(change: ChangeLogEntry) -> Seq<(Seq<char>, Seq<char>)> {
    let old = match change.original_value {
        Some(v) => seq![("old_value"@, v@)],
        None => Seq::empty(),
    };
    let new = match change.new_value {
        Some(v) => seq![("new_value"@, v@)],
        None => Seq::empty(),
    };
    seq![("_source"@, "backlog-changelog"@)] + old + new
}

/// A whitelisted changeLog entry: the new value as a dynamic attribute
/// observation (when present), then the change event.
pub open spec fn change_ops(task: Seq<char>, comment: Comment, index: nat, change: ChangeLogEntry) -> Seq<StagingOp> {
    match spec_change_kind(change.field@) {
        Some((event_type, attr)) => {
            let update = match change.new_value {
                Some(v) => seq![StagingOp::Attribute { id: task, name: attr, value: v@, time: comment.created }],
                None => Seq::empty(),
            };
            update.push(
                StagingOp::Event {
                    event: EventRecord {
                        id: change_event_id(task, comment, index),
                        event_type,
                        time: comment.created,
                        attributes: change_attributes(change),
                        relations: seq![(task, attr + " updated"@), (user_key(comment.created_user), "changed by"@)],
                    },
                },
            )
        },
        None => Seq::empty(),
    }
}

/// The changes staged from the first `n` changeLog entries of a comment.
pub open spec fn changes_ops(task: Seq<char>, comment: Comment, n: nat) -> Seq<StagingOp>
    decreases n,
{
    if n == 0 {
        Seq::empty()
    } else {
        changes_ops(task, comment, (n - 1) as nat) + change_ops(
            task,
            comment,
            (n - 1) as nat,
            comment.change_log@[n - 1],
        )
    }
}

/// A comment: its author, its `comment_added` event when it has text, then its changes.
pub open spec fn comment_ops(task: Seq<char>, comment: Comment, bodies: bool) -> Seq<StagingOp> {
    user_ops(comment.created_user) + (if has_text(comment) {
        seq![StagingOp::Event { event: comment_event(task, comment, bodies) }]
    } else {
        Seq::empty()
    }) + changes_ops(task, comment, comment.change_log.len() as nat)
}

/// Every comment of a task, in order.
pub open spec fn comments_ops(task: Seq<char>, comments: Seq<Comment>, bodies: bool) -> Seq<StagingOp>
    decreases comments.len(),
{
    if comments.len() == 0 {
        Seq::empty()
    } else {
        comments_ops(task, comments.drop_last(), bodies) + comment_ops(task, comments.last(), bodies)
    }
}

/// Everything staged for one issue.
pub open spec fn issue_ops(
    project: Project,
    issue: Issue,
    comments: Seq<Comment>,
    key_of: Map<u64, Seq<char>>,
    bodies: bool,
) -> Seq<StagingOp> {
    let task = issue.issue_key@;
    task_ops(project, issue) + parent_ops(issue, key_of)
        + tags_ops(task, "milestone:"@, "milestone"@, "assigned to"@, issue.milestone@)
        + tags_ops(task, "category:"@, "category"@, "categorized as"@, issue.category@)
        + user_ops(issue.created_user)
        + seq![StagingOp::Event { event: created_event(project, issue) }]
        + initial_ops(issue, comments)
        + comments_ops(task, comments, bodies)
}

/// The project object with its name.
pub open spec fn project_ops(project: Project) -> Seq<StagingOp> {
    named_object_ops(project.project_key@, "project"@, project.name@)
}

/// Issue key by issue id over `issues` (a later issue with the same id wins).
pub open spec fn key_index(issues: Seq<Issue>) -> Map<u64, Seq<char>>
    decreases issues.len(),
{
    if issues.len() == 0 {
        Map::empty()
    } else {
        key_index(issues.drop_last()).insert(issues.last().id, issues.last().issue_key@)
    }
}

/// The issues of (issue, comments) pairs.
pub open spec fn issues_of(pairs: Seq<(Issue, Vec<Comment>)>) -> Seq<Issue> {
    pairs.map_values(|p: (Issue, Vec<Comment>)| p.0)
}

/// Every issue of a project with its comments, in order.
pub open spec fn pairs_ops(
    project: Project,
    pairs: Seq<(Issue, Vec<Comment>)>,
    key_of: Map<u64, Seq<char>>,
) -> Seq<StagingOp>
    decreases pairs.len(),
{
    if pairs.len() == 0 {
        Seq::empty()
    } else {
        pairs_ops(project, pairs.drop_last(), key_of) + issue_ops(
            project,
            pairs.last().0,
            pairs.last().1@,
            key_of,
            false,
        )
    }
}

/// `counts` after counting the entries whose field is outside the whitelist.
pub open spec fn count_skipped(counts: Map<Seq<char>, nat>, entries: Seq<ChangeLogEntry>) -> Map<Seq<char>, nat>
    decreases entries.len(),
{
    if entries.len() == 0 {
        counts
    } else {
        let before = count_skipped(counts, entries.drop_last());
        let field = entries.last().field@;
        if spec_change_kind(field) is None {
            before.insert(field, count_of(before, field) + 1)
        } else {
            before
        }
    }
}

/// Whether every skipped-field count stays within `usize` after counting `entries`.
pub open spec fn counts_fit(counts: Map<Seq<char>, nat>, entries: Seq<ChangeLogEntry>) -> bool {
    forall|field: Seq<char>| #[trigger] count_of(count_skipped(counts, entries), field) <= usize::MAX
}

/// Every changeLog entry of every comment of every issue, in order.
pub open spec fn pairs_entries(pairs: Seq<(Issue, Vec<Comment>)>) -> Seq<ChangeLogEntry>
    decreases pairs.len(),
{
    if pairs.len() == 0 {
        Seq::empty()
    } else {
        pairs_entries(pairs.drop_last()) + all_entries(pairs.last().1@)
    }
}

/// Everything staged for one project and its issues.
pub open spec fn project_all_ops(project: Project, pairs: Seq<(Issue, Vec<Comment>)>) -> Seq<StagingOp> {
    project_ops(project) + pairs_ops(project, pairs, key_index(issues_of(pairs)))
}


// ---------------------------------------------------------------------------
// The mapping.
// ---------------------------------------------------------------------------

/// (event type, dynamic attribute name) for a changeLog field.
pub fn change_kind(field: &str) -> (kind: Option<(&'static str, &'static str)>)
    ensures
        match spec_change_kind(field@) {
            Some((event_type, attr)) => kind matches Some((e, a)) && e@ == event_type && a@ == attr,
            None => kind is None,
        },
{
    if str_eq(field, "status") {
        Some(("status_changed", "status"))
    } else if str_eq(field, "assigner") {
        Some(("assignee_changed", "assignee"))
    } else if str_eq(field, "priority") {
        Some(("priority_changed", "priority"))
    } else if str_eq(field, "milestone") {
        Some(("milestone_changed", "milestone"))
    } else if str_eq(field, "limitDate") {
        Some(("due_date_changed", "due_date"))
    } else {
        None
    }
}

/// Stage an object with a `name` attribute observed at the epoch.
fn named_object(staging: &mut StagingLog, id: &str, object_type: &str, name: &String)
    ensures
        staged(*final(staging)) == apply_ops(staged(*old(staging)), named_object_ops(id@, object_type@, name@)),
{
    let ghost v = staged(*staging);
    upsert_object(staging, id, object_type);
    add_object_attribute(staging, id, "name", name.clone(), Timestamp::unix_epoch());
    proof {
        lemma_apply_two(
            v,
            StagingOp::Upsert { id: id@, object_type: object_type@ },
            StagingOp::Attribute { id: id@, name: "name"@, value: name@, time: Timestamp::epoch() },
        );
    }
}

/// Stage a user object; returns its id.
fn user_object(staging: &mut StagingLog, user: &User) -> (id: String)
    ensures
        id@ == user_key(*user),
        staged(*final(staging)) == apply_ops(staged(*old(staging)), user_ops(*user)),
{
    let mut id = "user:".to_owned();
    push_decimal(&mut id, user.id);
    named_object(staging, id.as_str(), "user", &user.name);
    id
}

/// Stage a milestone or category object and link it from the task.
fn tag_object(staging: &mut StagingLog, task: &str, prefix: &str, object_type: &str, qualifier: &str, tag: &Named)
    ensures
        staged(*final(staging)) == apply_ops(
            staged(*old(staging)),
            tag_ops(task@, prefix@, object_type@, qualifier@, *tag),
        ),
{
    let ghost v = staged(*staging);
    let mut id = prefix.to_owned();
    push_decimal(&mut id, tag.id);
    named_object(staging, id.as_str(), object_type, &tag.name);
    add_o2o(staging, task, id.as_str(), qualifier);
    proof {
        let named = named_object_ops(id@, object_type@, tag.name@);
        let link = StagingOp::Link { source: task@, target: id@, qualifier: qualifier@ };
        lemma_apply_ops_push(v, named, link);
    }
}


/// Stage a whitelisted changeLog entry: the new value as a dynamic attribute
/// observation, then the field-specific change event.
fn map_change(
    staging: &mut StagingLog,
    task: &str,
    comment: &Comment,
    index: usize,
    change: &ChangeLogEntry,
    changer: &str,
)
    requires
        changer@ == user_key(comment.created_user),
    ensures
        staged(*final(staging)) == apply_ops(
            staged(*old(staging)),
            change_ops(task@, *comment, index as nat, *change),
        ),
{
    let ghost v = staged(*staging);
    let kind = change_kind(change.field.as_str());
    let (event_type, attr) = match kind {
        Some(k) => k,
        None => {
            proof { lemma_apply_none(v); }
            return;
        },
    };
    let mut attributes: Vec<(String, String)> = vec![("_source".to_owned(), "backlog-changelog".to_owned())];
    if let Some(old) = &change.original_value {
        attributes.push(("old_value".to_owned(), old.clone()));
    }
    let ghost mut done: Seq<StagingOp> = Seq::empty();
    proof { lemma_apply_none(v); }
    if let Some(new) = &change.new_value {
        attributes.push(("new_value".to_owned(), new.clone()));
        add_object_attribute(staging, task, attr, new.clone(), comment.created);
        proof {
            lemma_apply_one(v, StagingOp::Attribute { id: task@, name: attr@, value: new@, time: comment.created });
            done = seq![StagingOp::Attribute { id: task@, name: attr@, value: new@, time: comment.created }];
        }
    }
    let mut id = task.to_owned();
    id.append("/change/");
    push_decimal(&mut id, comment.id);
    id.append("/");
    push_decimal(&mut id, index as u64);
    let mut qualifier = attr.to_owned();
    qualifier.append(" updated");
    let event = StagedEvent {
        id,
        event_type: event_type.to_owned(),
        time: comment.created,
        attributes,
        relations: vec![(task.to_owned(), qualifier), (changer.to_owned(), "changed by".to_owned())],
    };
    proof {
        assert(event@.attributes =~= change_attributes(*change));
        assert(event@.relations =~= seq![(task@, attr@ + " updated"@), (user_key(comment.created_user), "changed by"@)]);
        assert(event@.id == change_event_id(task@, *comment, index as nat));
    }
    let ghost op = StagingOp::Event { event: event@ };
    add_event(staging, event);
    proof {
        lemma_apply_ops_push(v, done, op);
        assert(done.push(op) =~= change_ops(task@, *comment, index as nat, *change));
    }
}


/// Whether a changeLog entry updates the dynamic attribute `attr`.
fn entry_updates(entry: &ChangeLogEntry, attr: &str) -> (r: bool)
    ensures
        r == updates(*entry, attr@),
{
    match change_kind(entry.field.as_str()) {
        Some((_, a)) => str_eq(a, attr),
        None => false,
    }
}

/// The changeLog entries of `comments` that update `attr`, in order.
fn collect_changes<'c>(comments: &'c [Comment], attr: &str) -> (changes: Vec<&'c ChangeLogEntry>)
    ensures
        changes@.map_values(|e: &ChangeLogEntry| *e) == changes_of(all_entries(comments@), attr@),
{
    let mut changes: Vec<&'c ChangeLogEntry> = Vec::new();
    let mut i: usize = 0;
    while i < comments.len()
        invariant
            i <= comments.len(),
            changes@.map_values(|e: &ChangeLogEntry| *e) == changes_of(all_entries(comments@.take(i as int)), attr@),
        decreases comments.len() - i,
    {
        let comment = &comments[i];
        let ghost before = all_entries(comments@.take(i as int));
        let mut j: usize = 0;
        while j < comment.change_log.len()
            invariant
                i < comments.len(),
                comment == &comments@[i as int],
                j <= comment.change_log.len(),
                changes@.map_values(|e: &ChangeLogEntry| *e) == changes_of(before + comment.change_log@.take(j as int), attr@),
            decreases comment.change_log.len() - j,
        {
            let entry = &comment.change_log[j];
            let ghost prefix = before + comment.change_log@.take(j as int);
            assert(before + comment.change_log@.take(j + 1) == prefix.push(*entry));
            assert((prefix.push(*entry)).drop_last() == prefix);
            if entry_updates(entry, attr) {
                let ghost old_changes = changes@;
                changes.push(entry);
                assert(changes@.map_values(|e: &ChangeLogEntry| *e) =~= old_changes.map_values(|e: &ChangeLogEntry| *e).push(*entry));
            }
            j = j + 1;
        }
        assert(comments@.take(i + 1).drop_last() == comments@.take(i as int));
        assert(comment.change_log@.take(j as int) == comment.change_log@);
        i = i + 1;
    }
    assert(comments@.take(i as int) == comments@);
    changes
}

/// The value of `attr` at creation: the first change's original value when
/// the attribute ever changed, `current` otherwise.
fn initial(comments: &[Comment], attr: &str, current: Option<String>) -> (value: Option<String>)
    ensures
        opt_text(value) == initial_value(comments@, attr@, opt_text(current)),
{
    let changes = collect_changes(comments, attr);
    if changes.len() > 0 {
        proof {
            assert(changes@.map_values(|e: &ChangeLogEntry| *e)[0] == *changes@[0]);
        }
        changes[0].original_value.clone()
    } else {
        current
    }
}

/// Stage one initial dynamic attribute observation, when there is a value.
fn record_one(staging: &mut StagingLog, task: &str, attr: &str, value: Option<String>, created: Timestamp)
    ensures
        staged(*final(staging)) == apply_ops(
            staged(*old(staging)),
            initial_op(task@, created, attr@, opt_text(value)),
        ),
{
    let ghost v = staged(*staging);
    match value {
        Some(value) => {
            let ghost text = value@;
            add_object_attribute(staging, task, attr, value, created);
            proof {
                lemma_apply_one(v, StagingOp::Attribute { id: task@, name: attr@, value: text, time: created });
            }
        },
        None => {
            proof { lemma_apply_none(v); }
        },
    }
}

/// Stage the initial values of the task's dynamic attributes at creation
/// time, reconstructed from the first change's `originalValue` (falling back
/// to the current value).
fn record_initial(staging: &mut StagingLog, task: &str, issue: &Issue, comments: &[Comment])
    requires
        task@ == issue.issue_key@,
    ensures
        staged(*final(staging)) == apply_ops(staged(*old(staging)), initial_ops(*issue, comments@)),
{
    let ghost v = staged(*staging);
    let ghost t = task@;
    let ghost c = issue.created;
    let status = initial(comments, "status", Some(issue.status.name.clone()));
    record_one(staging, task, "status", status, issue.created);
    let ghost s1 = initial_op(t, c, "status"@, opt_text(status));
    let priority = initial(comments, "priority", Some(issue.priority.name.clone()));
    record_one(staging, task, "priority", priority, issue.created);
    let ghost s2 = initial_op(t, c, "priority"@, opt_text(priority));
    proof { lemma_apply_ops_append(v, s1, s2); }
    let assignee = match &issue.assignee {
        Some(user) => Some(user.name.clone()),
        None => None,
    };
    let assignee = initial(comments, "assignee", assignee);
    record_one(staging, task, "assignee", assignee, issue.created);
    let ghost s3 = initial_op(t, c, "assignee"@, opt_text(assignee));
    proof { lemma_apply_ops_append(v, s1 + s2, s3); }
    let due_date = match issue.due_date {
        Some(d) => Some(rfc3339(d)),
        None => None,
    };
    let due_date = initial(comments, "due_date", due_date);
    record_one(staging, task, "due_date", due_date, issue.created);
    let ghost s4 = initial_op(t, c, "due_date"@, opt_text(due_date));
    proof { lemma_apply_ops_append(v, s1 + s2 + s3, s4); }
}


/// The entries of consecutive comment runs are consecutive.
pub proof fn lemma_all_entries_append(a: Seq<Comment>, b: Seq<Comment>)
    ensures
        all_entries(a + b) == all_entries(a) + all_entries(b),
    decreases b.len(),
{
    if b.len() == 0 {
        assert(a + b == a);
        assert(all_entries(a) + all_entries(b) == all_entries(a));
    } else {
        lemma_all_entries_append(a, b.drop_last());
        assert((a + b).drop_last() == a + b.drop_last());
        assert((a + b).last() == b.last());
    }
}

/// Counting a run of entries then another is counting both.
pub proof fn lemma_count_skipped_append(counts: Map<Seq<char>, nat>, a: Seq<ChangeLogEntry>, b: Seq<ChangeLogEntry>)
    ensures
        count_skipped(count_skipped(counts, a), b) == count_skipped(counts, a + b),
    decreases b.len(),
{
    if b.len() == 0 {
        assert(a + b == a);
    } else {
        lemma_count_skipped_append(counts, a, b.drop_last());
        assert((a + b).drop_last() == a + b.drop_last());
        assert((a + b).last() == b.last());
    }
}


/// Each skipped count grows by at most the number of entries counted.
pub proof fn lemma_count_skipped_bounded(counts: Map<Seq<char>, nat>, entries: Seq<ChangeLogEntry>, field: Seq<char>)
    ensures
        count_of(count_skipped(counts, entries), field) <= count_of(counts, field) + entries.len(),
    decreases entries.len(),
{
    if entries.len() > 0 {
        lemma_count_skipped_bounded(counts, entries.drop_last(), field);
    }
}

/// The counts fit in `usize` when every count so far plus the number of
/// entries still to count does.
pub proof fn lemma_counts_fit(counts: Map<Seq<char>, nat>, entries: Seq<ChangeLogEntry>)
    requires
        forall|field: Seq<char>| #[trigger] count_of(counts, field) + entries.len() <= usize::MAX,
    ensures
        counts_fit(counts, entries),
{
    assert forall|field: Seq<char>| #[trigger] count_of(count_skipped(counts, entries), field) <= usize::MAX by {
        lemma_count_skipped_bounded(counts, entries, field);
        assert(count_of(counts, field) + entries.len() <= usize::MAX);
    }
}

/// A project with at most `usize::MAX` changeLog entries in all meets the
/// counting requirement of `map_project`, `map_project_into` and `map_projects`.
pub proof fn lemma_project_counts_fit(pairs: Seq<(Issue, Vec<Comment>)>)
    requires
        pairs_entries(pairs).len() <= usize::MAX,
    ensures
        counts_fit(Map::empty(), pairs_entries(pairs)),
{
    lemma_counts_fit(Map::empty(), pairs_entries(pairs));
}
/// Counting more entries never lowers a count.
pub proof fn lemma_count_skipped_grows(counts: Map<Seq<char>, nat>, b: Seq<ChangeLogEntry>, field: Seq<char>)
    ensures
        count_of(counts, field) <= count_of(count_skipped(counts, b), field),
    decreases b.len(),
{
    if b.len() > 0 {
        lemma_count_skipped_grows(counts, b.drop_last(), field);
    }
}

/// Issue key by issue id over `issues`.
pub(crate) fn key_index_of(issues: &[Issue]) -> (key_of: HashMap<u64, String>)
    ensures
        key_of@.map_values(|k: String| k@) == key_index(issues@),
{
    broadcast use vstd::std_specs::hash::group_hash_axioms;
    let mut key_of: HashMap<u64, String> = HashMap::new();
    let mut i: usize = 0;
    assert(key_of@.map_values(|k: String| k@) =~= key_index(issues@.take(0)));
    while i < issues.len()
        invariant
            i <= issues.len(),
            key_of@.map_values(|k: String| k@) == key_index(issues@.take(i as int)),
        decreases issues.len() - i,
    {
        let ghost before = key_of@;
        key_of.insert(issues[i].id, issues[i].issue_key.clone());
        assert(issues@.take(i + 1).drop_last() == issues@.take(i as int));
        assert(key_of@.map_values(|k: String| k@) =~= before.map_values(|k: String| k@).insert(
            issues@[i as int].id,
            issues@[i as int].issue_key@,
        ));
        i = i + 1;
    }
    assert(issues@.take(i as int) == issues@);
    key_of
}

/// Issue key by issue id over the issues of (issue, comments) pairs.
fn key_index_of_pairs(pairs: &[(Issue, Vec<Comment>)]) -> (key_of: HashMap<u64, String>)
    ensures
        key_of@.map_values(|k: String| k@) == key_index(issues_of(pairs@)),
{
    broadcast use vstd::std_specs::hash::group_hash_axioms;
    let mut key_of: HashMap<u64, String> = HashMap::new();
    let mut i: usize = 0;
    assert(issues_of(pairs@.take(0)) =~= Seq::<Issue>::empty());
    assert(key_of@.map_values(|k: String| k@) =~= key_index(issues_of(pairs@.take(0))));
    while i < pairs.len()
        invariant
            i <= pairs.len(),
            key_of@.map_values(|k: String| k@) == key_index(issues_of(pairs@.take(i as int))),
        decreases pairs.len() - i,
    {
        let ghost before = key_of@;
        key_of.insert(pairs[i].0.id, pairs[i].0.issue_key.clone());
        assert(issues_of(pairs@.take(i + 1)) =~= issues_of(pairs@.take(i as int)).push(pairs@[i as int].0));
        assert(issues_of(pairs@.take(i + 1)).drop_last() =~= issues_of(pairs@.take(i as int)));
        assert(key_of@.map_values(|k: String| k@) =~= before.map_values(|k: String| k@).insert(
            pairs@[i as int].0.id,
            pairs@[i as int].0.issue_key@,
        ));
        i = i + 1;
    }
    assert(pairs@.take(i as int) == pairs@);
    key_of
}


/// Stage one comment: its author, its `comment_added` event when it has
/// text, and its changeLog entries (whitelisted ones become change events,
/// the others are counted in `skipped`).
fn map_comment(
    staging: &mut StagingLog,
    task: &str,
    comment: &Comment,
    comment_bodies: bool,
    skipped: &mut FieldCounts,
)
    requires
        counts_fit(old(skipped)@, comment.change_log@),
    ensures
        staged(*final(staging)) == apply_ops(staged(*old(staging)), comment_ops(task@, *comment, comment_bodies)),
        final(skipped)@ == count_skipped(old(skipped)@, comment.change_log@),
{
    let ghost v = staged(*staging);
    let ghost counts0 = skipped@;
    let commenter = user_object(staging, &comment.created_user);
    let ghost mut done = user_ops(comment.created_user);
    if let Some(content) = &comment.content {
        if !content.as_str().is_empty() {
            let attributes: Vec<(String, String)> = if comment_bodies {
                vec![("body".to_owned(), content.clone())]
            } else {
                Vec::new()
            };
            let mut id = task.to_owned();
            id.append("/comment/");
            push_decimal(&mut id, comment.id);
            let event = StagedEvent {
                id,
                event_type: "comment_added".to_owned(),
                time: comment.created,
                attributes,
                relations: vec![(task.to_owned(), "commented on".to_owned()), (commenter.clone(), "commenter".to_owned())],
            };
            proof {
                assert(event@.attributes =~= comment_event(task@, *comment, comment_bodies).attributes);
                assert(event@.relations =~= comment_event(task@, *comment, comment_bodies).relations);
                assert(event@ == comment_event(task@, *comment, comment_bodies));
            }
            let ghost op = StagingOp::Event { event: event@ };
            add_event(staging, event);
            proof {
                lemma_apply_ops_push(v, done, op);
                done = done.push(op);
            }
        }
    }
    let ghost head = done;
    proof {
        assert(head =~= user_ops(comment.created_user) + (if has_text(*comment) {
            seq![StagingOp::Event { event: comment_event(task@, *comment, comment_bodies) }]
        } else {
            Seq::<StagingOp>::empty()
        }));
        assert(head + changes_ops(task@, *comment, 0) =~= head);
        assert(comment.change_log@.take(0) =~= Seq::<ChangeLogEntry>::empty());
    }
    let mut index: usize = 0;
    while index < comment.change_log.len()
        invariant
            index <= comment.change_log.len(),
            staged(*staging) == apply_ops(v, head + changes_ops(task@, *comment, index as nat)),
            skipped@ == count_skipped(counts0, comment.change_log@.take(index as int)),
            counts_fit(counts0, comment.change_log@),
            commenter@ == user_key(comment.created_user),
        decreases comment.change_log.len() - index,
    {
        let change = &comment.change_log[index];
        let ghost prefix = comment.change_log@.take(index as int);
        let ghost next = comment.change_log@.take(index + 1);
        proof {
            assert(next.drop_last() == prefix);
            assert(next.last() == *change);
            assert(head + changes_ops(task@, *comment, (index + 1) as nat) =~= (head + changes_ops(task@, *comment, index as nat))
                + change_ops(task@, *comment, index as nat, *change));
        }
        if change_kind(change.field.as_str()).is_none() {
            proof {
                let f = change.field@;
                let log = comment.change_log@;
                assert(log == next + log.skip(index + 1));
                lemma_count_skipped_append(counts0, next, log.skip(index + 1));
                lemma_count_skipped_grows(count_skipped(counts0, next), log.skip(index + 1), f);
                assert(count_of(count_skipped(counts0, log), f) <= usize::MAX);
                assert(change_ops(task@, *comment, index as nat, *change) =~= Seq::<StagingOp>::empty());
                assert(head + changes_ops(task@, *comment, index as nat) + Seq::<StagingOp>::empty()
                    =~= head + changes_ops(task@, *comment, index as nat));
            }
            skipped.bump(change.field.as_str());
        } else {
            let ghost before = head + changes_ops(task@, *comment, index as nat);
            map_change(staging, task, comment, index, change, commenter.as_str());
            proof {
                lemma_apply_ops_append(v, before, change_ops(task@, *comment, index as nat, *change));
            }
        }
        index = index + 1;
    }
    proof {
        assert(comment.change_log@.take(index as int) == comment.change_log@);
        assert(head + changes_ops(task@, *comment, comment.change_log.len() as nat) =~= comment_ops(task@, *comment, comment_bodies));
    }
}


/// Stage one issue with its comments: the task object (static attributes,
/// project / parent / milestone / category links), the `task_created` event,
/// the initial dynamic attribute values, then every comment.
fn map_issue(
    staging: &mut StagingLog,
    project: &Project,
    issue: &Issue,
    comments: &[Comment],
    key_of: &HashMap<u64, String>,
    comment_bodies: bool,
    skipped: &mut FieldCounts,
)
    requires
        counts_fit(old(skipped)@, all_entries(comments@)),
    ensures
        staged(*final(staging)) == apply_ops(
            staged(*old(staging)),
            issue_ops(*project, *issue, comments@, key_of@.map_values(|k: String| k@), comment_bodies),
        ),
        final(skipped)@ == count_skipped(old(skipped)@, all_entries(comments@)),
{
    broadcast use vstd::std_specs::hash::group_hash_axioms;
    let ghost v = staged(*staging);
    let ghost keys = key_of@.map_values(|k: String| k@);
    let ghost counts0 = skipped@;
    let task = issue.issue_key.as_str();
    let ghost t = task@;
    let epoch = Timestamp::unix_epoch();

    upsert_object(staging, task, "task");
    add_object_attribute(staging, task, "summary", issue.summary.clone(), epoch);
    add_object_attribute(staging, task, "issue_type", issue.issue_type.name.clone(), epoch);
    add_o2o(staging, task, project.project_key.as_str(), "belongs to");
    proof {
        let ops = task_ops(*project, *issue);
        lemma_apply_one(v, ops[0]);
        lemma_apply_ops_push(v, seq![ops[0]], ops[1]);
        lemma_apply_ops_push(v, seq![ops[0], ops[1]], ops[2]);
        lemma_apply_ops_push(v, seq![ops[0], ops[1], ops[2]], ops[3]);
        assert(seq![ops[0]].push(ops[1]) =~= seq![ops[0], ops[1]]);
        assert(seq![ops[0], ops[1]].push(ops[2]) =~= seq![ops[0], ops[1], ops[2]]);
        assert(seq![ops[0], ops[1], ops[2]].push(ops[3]) =~= ops);
    }
    let ghost mut done = task_ops(*project, *issue);

    // O2O: project / parent / milestone / category
    if let Some(parent_id) = issue.parent_issue_id {
        if let Some(parent_key) = key_of.get(&parent_id) {
            add_o2o(staging, parent_key.as_str(), task, "parent of");
            proof {
                let op = StagingOp::Link { source: keys[parent_id], target: t, qualifier: "parent of"@ };
                lemma_apply_ops_push(v, done, op);
                assert(parent_ops(*issue, keys) =~= seq![op]);
                assert(done.push(op) =~= done + parent_ops(*issue, keys));
                done = done + parent_ops(*issue, keys);
            }
        } else {
            proof {
                assert(parent_ops(*issue, keys) =~= Seq::<StagingOp>::empty());
                assert(done =~= done + parent_ops(*issue, keys));
                done = done + parent_ops(*issue, keys);
            }
        }
    } else {
        proof {
            assert(done =~= done + parent_ops(*issue, keys));
            done = done + parent_ops(*issue, keys);
        }
    }

    let ghost before_milestones = done;
    let mut i: usize = 0;
    proof {
        assert(issue.milestone@.take(0) =~= Seq::<Named>::empty());
        assert(before_milestones + tags_ops(t, "milestone:"@, "milestone"@, "assigned to"@, issue.milestone@.take(0)) =~= before_milestones);
    }
    while i < issue.milestone.len()
        invariant
            i <= issue.milestone.len(),
            t == issue.issue_key@,
            task@ == t,
            staged(*staging) == apply_ops(
                v,
                before_milestones + tags_ops(t, "milestone:"@, "milestone"@, "assigned to"@, issue.milestone@.take(i as int)),
            ),
        decreases issue.milestone.len() - i,
    {
        let ghost so_far = before_milestones + tags_ops(t, "milestone:"@, "milestone"@, "assigned to"@, issue.milestone@.take(i as int));
        tag_object(staging, task, "milestone:", "milestone", "assigned to", &issue.milestone[i]);
        proof {
            let tag = issue.milestone@[i as int];
            lemma_apply_ops_append(v, so_far, tag_ops(t, "milestone:"@, "milestone"@, "assigned to"@, tag));
            let next = issue.milestone@.take(i + 1);
            assert(next.drop_last() == issue.milestone@.take(i as int));
            assert(next.last() == tag);
            assert(so_far + tag_ops(t, "milestone:"@, "milestone"@, "assigned to"@, tag)
                =~= before_milestones + tags_ops(t, "milestone:"@, "milestone"@, "assigned to"@, next));
        }
        i = i + 1;
    }
    proof {
        assert(issue.milestone@.take(i as int) == issue.milestone@);
        done = before_milestones + tags_ops(t, "milestone:"@, "milestone"@, "assigned to"@, issue.milestone@);
    }

    let ghost before_categories = done;
    let mut i: usize = 0;
    proof {
        assert(issue.category@.take(0) =~= Seq::<Named>::empty());
        assert(before_categories + tags_ops(t, "category:"@, "category"@, "categorized as"@, issue.category@.take(0)) =~= before_categories);
    }
    while i < issue.category.len()
        invariant
            i <= issue.category.len(),
            t == issue.issue_key@,
            task@ == t,
            staged(*staging) == apply_ops(
                v,
                before_categories + tags_ops(t, "category:"@, "category"@, "categorized as"@, issue.category@.take(i as int)),
            ),
        decreases issue.category.len() - i,
    {
        let ghost so_far = before_categories + tags_ops(t, "category:"@, "category"@, "categorized as"@, issue.category@.take(i as int));
        tag_object(staging, task, "category:", "category", "categorized as", &issue.category[i]);
        proof {
            let tag = issue.category@[i as int];
            lemma_apply_ops_append(v, so_far, tag_ops(t, "category:"@, "category"@, "categorized as"@, tag));
            let next = issue.category@.take(i + 1);
            assert(next.drop_last() == issue.category@.take(i as int));
            assert(next.last() == tag);
            assert(so_far + tag_ops(t, "category:"@, "category"@, "categorized as"@, tag)
                =~= before_categories + tags_ops(t, "category:"@, "category"@, "categorized as"@, next));
        }
        i = i + 1;
    }
    proof {
        assert(issue.category@.take(i as int) == issue.category@);
        done = before_categories + tags_ops(t, "category:"@, "category"@, "categorized as"@, issue.category@);
    }

    // task_created event
    let creator = user_object(staging, &issue.created_user);
    proof {
        lemma_apply_ops_append(v, done, user_ops(issue.created_user));
        done = done + user_ops(issue.created_user);
    }
    let mut created_id = task.to_owned();
    created_id.append("/created");
    let event = StagedEvent {
        id: created_id,
        event_type: "task_created".to_owned(),
        time: issue.created,
        attributes: Vec::new(),
        relations: vec![
            (task.to_owned(), "created task".to_owned()),
            (creator, "creator".to_owned()),
            (project.project_key.clone(), "belongs to project".to_owned()),
        ],
    };
    proof {
        assert(event@.attributes =~= created_event(*project, *issue).attributes);
        assert(event@.relations =~= created_event(*project, *issue).relations);
        assert(event@ == created_event(*project, *issue));
    }
    let ghost created_op = StagingOp::Event { event: event@ };
    add_event(staging, event);
    proof {
        lemma_apply_ops_push(v, done, created_op);
        assert(done.push(created_op) =~= done + seq![created_op]);
        done = done + seq![created_op];
    }

    // dynamic attributes: initial value at creation time
    record_initial(staging, task, issue, comments);
    proof {
        lemma_apply_ops_append(v, done, initial_ops(*issue, comments@));
        done = done + initial_ops(*issue, comments@);
    }

    // comments
    let ghost before_comments = done;
    proof {
        assert(comments@.take(0) =~= Seq::<Comment>::empty());
        assert(before_comments + comments_ops(t, comments@.take(0), comment_bodies) =~= before_comments);
        assert(all_entries(comments@.take(0)) =~= Seq::<ChangeLogEntry>::empty());
    }
    let mut c: usize = 0;
    while c < comments.len()
        invariant
            c <= comments.len(),
            t == issue.issue_key@,
            task@ == t,
            staged(*staging) == apply_ops(v, before_comments + comments_ops(t, comments@.take(c as int), comment_bodies)),
            skipped@ == count_skipped(counts0, all_entries(comments@.take(c as int))),
            counts_fit(counts0, all_entries(comments@)),
        decreases comments.len() - c,
    {
        let comment = &comments[c];
        let ghost so_far = before_comments + comments_ops(t, comments@.take(c as int), comment_bodies);
        let ghost prefix = comments@.take(c as int);
        let ghost next = comments@.take(c + 1);
        proof {
            assert(next.drop_last() == prefix);
            assert(next.last() == *comment);
            assert(all_entries(next) == all_entries(prefix) + comment.change_log@);
            assert(comments@ == next + comments@.skip(c + 1));
            lemma_all_entries_append(next, comments@.skip(c + 1));
            lemma_count_skipped_append(counts0, all_entries(prefix), comment.change_log@);
            lemma_count_skipped_append(counts0, all_entries(next), all_entries(comments@.skip(c + 1)));
            assert forall|f: Seq<char>| #[trigger] count_of(count_skipped(skipped@, comment.change_log@), f) <= usize::MAX by {
                lemma_count_skipped_grows(count_skipped(counts0, all_entries(next)), all_entries(comments@.skip(c + 1)), f);
                assert(count_of(count_skipped(counts0, all_entries(comments@)), f) <= usize::MAX);
            }
        }
        map_comment(staging, task, comment, comment_bodies, skipped);
        proof {
            lemma_apply_ops_append(v, so_far, comment_ops(t, *comment, comment_bodies));
            assert(so_far + comment_ops(t, *comment, comment_bodies)
                =~= before_comments + comments_ops(t, next, comment_bodies));
        }
        c = c + 1;
    }
    proof {
        assert(comments@.take(c as int) == comments@);
        assert(before_comments + comments_ops(t, comments@, comment_bodies)
            =~= issue_ops(*project, *issue, comments@, keys, comment_bodies));
    }
}


/// The entries of consecutive issue runs are consecutive.
pub proof fn lemma_pairs_entries_append(a: Seq<(Issue, Vec<Comment>)>, b: Seq<(Issue, Vec<Comment>)>)
    ensures
        pairs_entries(a + b) == pairs_entries(a) + pairs_entries(b),
    decreases b.len(),
{
    if b.len() == 0 {
        assert(a + b == a);
        assert(pairs_entries(a) + pairs_entries(b) == pairs_entries(a));
    } else {
        lemma_pairs_entries_append(a, b.drop_last());
        assert((a + b).drop_last() == a + b.drop_last());
        assert((a + b).last() == b.last());
    }
}

/// Streaming-friendly mapper for one project: build it from the issue list,
/// then feed each issue's comments as they are fetched and drop them.
///
/// The issue list is needed up front only to resolve `parentIssueId` into
/// issue keys.
#[derive(Debug)]
pub struct ProjectMapper<'a> {
    project: &'a Project,
    key_of: HashMap<u64, String>,
    /// Store comment text as a `body` event attribute (default off: Backlog
    /// spaces are private data; opt in when content predicates need the text).
    comment_bodies: bool,
    skipped: FieldCounts,
}

impl<'a> ProjectMapper<'a> {
    /// The project being mapped.
    pub closed spec fn mapped_project(&self) -> Project {
        *self.project
    }

    /// Issue key by issue id, over the issue list the mapper was built from.
    pub closed spec fn issue_keys(&self) -> Map<u64, Seq<char>> {
        self.key_of@.map_values(|k: String| k@)
    }

    /// Whether comment text is staged as a `body` attribute.
    pub closed spec fn bodies(&self) -> bool {
        self.comment_bodies
    }

    /// Occurrences of each skipped changeLog field so far.
    pub closed spec fn skipped(&self) -> Map<Seq<char>, nat> {
        self.skipped@
    }

    /// Build the mapper from the project and its issue list (comment bodies off).
    pub fn new(project: &'a Project, issues: &[Issue]) -> (mapper: Self)
        ensures
            mapper.mapped_project() == *project,
            mapper.issue_keys() == key_index(issues@),
            !mapper.bodies(),
            mapper.skipped() == Map::<Seq<char>, nat>::empty(),
    {
        ProjectMapper { project, key_of: key_index_of(issues), comment_bodies: false, skipped: FieldCounts::new() }
    }

    /// The same mapper, staging comment text as a `body` attribute when
    /// `comment_bodies` holds.
    pub fn with_comment_bodies(self, comment_bodies: bool) -> (mapper: Self)
        ensures
            mapper.mapped_project() == self.mapped_project(),
            mapper.issue_keys() == self.issue_keys(),
            mapper.bodies() == comment_bodies,
            mapper.skipped() == self.skipped(),
    {
        ProjectMapper { comment_bodies, ..self }
    }

    /// Register the project object (call once per project).
    pub fn register(&self, staging: &mut StagingLog)
        ensures
            staged(*final(staging)) == apply_ops(staged(*old(staging)), project_ops(self.mapped_project())),
    {
        named_object(staging, self.project.project_key.as_str(), "project", &self.project.name);
    }

    /// Map one issue (with its comments) into the staging log.
    pub fn map_issue(&mut self, staging: &mut StagingLog, issue: &Issue, comments: &[Comment])
        requires
            counts_fit(old(self).skipped(), all_entries(comments@)),
        ensures
            staged(*final(staging)) == apply_ops(
                staged(*old(staging)),
                issue_ops(old(self).mapped_project(), *issue, comments@, old(self).issue_keys(), old(self).bodies()),
            ),
            final(self).skipped() == count_skipped(old(self).skipped(), all_entries(comments@)),
            final(self).mapped_project() == old(self).mapped_project(),
            final(self).issue_keys() == old(self).issue_keys(),
            final(self).bodies() == old(self).bodies(),
    {
        map_issue(staging, self.project, issue, comments, &self.key_of, self.comment_bodies, &mut self.skipped);
    }

    /// `changeLog` fields that were skipped (not in the mapping whitelist),
    /// with occurrence counts. Dropping is deliberate; dropping silently is not.
    pub fn skipped_fields(&self) -> (skipped: &FieldCounts)
        ensures
            skipped@ == self.skipped(),
    {
        &self.skipped
    }
}

/// Append one project's data to an existing staging log, and hand back the
/// changeLog fields that were skipped (not in the mapping whitelist), with
/// their occurrence counts.
pub fn map_project_into(staging: &mut StagingLog, project: &Project, issues: &[(Issue, Vec<Comment>)]) -> (skipped: FieldCounts)
    requires
        counts_fit(Map::empty(), pairs_entries(issues@)),
    ensures
        staged(*final(staging)) == apply_ops(staged(*old(staging)), project_all_ops(*project, issues@)),
        skipped@ == count_skipped(Map::empty(), pairs_entries(issues@)),
{
    let ghost v = staged(*staging);
    let ghost keys = key_index(issues_of(issues@));
    let mut mapper = ProjectMapper {
        project,
        key_of: key_index_of_pairs(issues),
        comment_bodies: false,
        skipped: FieldCounts::new(),
    };
    mapper.register(staging);
    proof {
        assert(issues@.take(0) =~= Seq::<(Issue, Vec<Comment>)>::empty());
        assert(project_ops(*project) + pairs_ops(*project, issues@.take(0), keys) =~= project_ops(*project));
        assert(pairs_entries(issues@.take(0)) =~= Seq::<ChangeLogEntry>::empty());
    }
    let mut i: usize = 0;
    while i < issues.len()
        invariant
            i <= issues.len(),
            mapper.mapped_project() == *project,
            mapper.issue_keys() == keys,
            !mapper.bodies(),
            mapper.skipped() == count_skipped(Map::empty(), pairs_entries(issues@.take(i as int))),
            counts_fit(Map::empty(), pairs_entries(issues@)),
            staged(*staging) == apply_ops(v, project_ops(*project) + pairs_ops(*project, issues@.take(i as int), keys)),
        decreases issues.len() - i,
    {
        let pair = &issues[i];
        let ghost so_far = project_ops(*project) + pairs_ops(*project, issues@.take(i as int), keys);
        let ghost prefix = issues@.take(i as int);
        let ghost next = issues@.take(i + 1);
        proof {
            assert(next.drop_last() == prefix);
            assert(next.last() == *pair);
            assert(issues@ == next + issues@.skip(i + 1));
            lemma_pairs_entries_append(next, issues@.skip(i + 1));
            lemma_count_skipped_append(Map::empty(), pairs_entries(prefix), all_entries(pair.1@));
            lemma_count_skipped_append(Map::empty(), pairs_entries(next), pairs_entries(issues@.skip(i + 1)));
            assert forall|f: Seq<char>| #[trigger] count_of(count_skipped(mapper.skipped(), all_entries(pair.1@)), f) <= usize::MAX by {
                lemma_count_skipped_grows(count_skipped(Map::empty(), pairs_entries(next)), pairs_entries(issues@.skip(i + 1)), f);
                assert(count_of(count_skipped(Map::empty(), pairs_entries(issues@)), f) <= usize::MAX);
            }
        }
        mapper.map_issue(staging, &pair.0, pair.1.as_slice());
        proof {
            lemma_apply_ops_append(v, so_far, issue_ops(*project, pair.0, pair.1@, keys, false));
            assert(so_far + issue_ops(*project, pair.0, pair.1@, keys, false)
                =~= project_ops(*project) + pairs_ops(*project, next, keys));
        }
        i = i + 1;
    }
    proof {
        assert(issues@.take(i as int) == issues@);
    }
    mapper.skipped
}

/// Map a project's issues (with their comments) into a fresh staging log.
///
/// Validation happens later, when `StagingLog::into_ocel` builds the event log.
pub fn map_project(project: &Project, issues: &[(Issue, Vec<Comment>)]) -> (staging: StagingLog)
    requires
        counts_fit(Map::empty(), pairs_entries(issues@)),
    ensures
        staged(staging) == apply_ops(empty_view(), project_all_ops(*project, issues@)),
{
    let mut staging = new_log();
    map_project_into(&mut staging, project, issues);
    staging
}

/// A project paired with its issues, each issue paired with its comments.
pub type ProjectIssues = (Project, Vec<(Issue, Vec<Comment>)>);

/// Everything staged for several projects, in order.
pub open spec fn projects_ops(projects: Seq<ProjectIssues>) -> Seq<StagingOp>
    decreases projects.len(),
{
    if projects.len() == 0 {
        Seq::empty()
    } else {
        projects_ops(projects.drop_last()) + project_all_ops(projects.last().0, projects.last().1@)
    }
}

/// Map several projects into one staging log (objects such as users merge
/// naturally across projects).
pub fn map_projects(projects: &[ProjectIssues]) -> (staging: StagingLog)
    requires
        forall|i: int| 0 <= i < projects@.len() ==> counts_fit(Map::empty(), pairs_entries(#[trigger] projects@[i].1@)),
    ensures
        staged(staging) == apply_ops(empty_view(), projects_ops(projects@)),
{
    let mut staging = new_log();
    let mut i: usize = 0;
    proof {
        assert(projects@.take(0) =~= Seq::<ProjectIssues>::empty());
    }
    while i < projects.len()
        invariant
            i <= projects.len(),
            forall|i: int| 0 <= i < projects@.len() ==> counts_fit(Map::empty(), pairs_entries(#[trigger] projects@[i].1@)),
            staged(staging) == apply_ops(empty_view(), projects_ops(projects@.take(i as int))),
        decreases projects.len() - i,
    {
        let ghost so_far = projects_ops(projects@.take(i as int));
        let entry = &projects[i];
        proof {
            assert(counts_fit(Map::empty(), pairs_entries(projects@[i as int].1@)));
        }
        map_project_into(&mut staging, &entry.0, entry.1.as_slice());
        proof {
            let next = projects@.take(i + 1);
            assert(next.drop_last() == projects@.take(i as int));
            assert(next.last() == *entry);
            lemma_apply_ops_append(empty_view(), so_far, project_all_ops(entry.0, entry.1@));
        }
        i = i + 1;
    }
    proof {
        assert(projects@.take(i as int) == projects@);
    }
    staging
}

} // verus!
