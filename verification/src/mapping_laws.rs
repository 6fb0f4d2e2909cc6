//! What mapping an issue stages, stated over the issue's own data: its
//! `task_created` event, its comments' events, its change events, its
//! milestones and categories, and the attribute values at creation.

use vstd::prelude::*;

use crate::mapper::{
    all_entries, change_attributes, change_event_id, change_ops, changes_of, changes_ops, comment_event, comment_ops,
    comments_ops, created_event, has_text, initial_op, initial_ops, initial_value, issue_ops, parent_ops,
    spec_change_kind, tag_ops, tags_ops, task_ops, updates, user_ops, lemma_all_entries_append,
};
use crate::models::{ChangeLogEntry, Comment, Issue, Named, Project};
use crate::staging::{EventRecord, StagingOp};
use crate::text::decimal;

verus! {

proof fn lemma_in_left<A>(a: Seq<A>, b: Seq<A>, x: A)
    requires
        a.contains(x),
    ensures
        (a + b).contains(x),
{
    let i = choose|i: int| 0 <= i < a.len() && a[i] == x;
    assert((a + b)[i] == x);
}

proof fn lemma_in_right<A>(a: Seq<A>, b: Seq<A>, x: A)
    requires
        b.contains(x),
    ensures
        (a + b).contains(x),
{
    let i = choose|i: int| 0 <= i < b.len() && b[i] == x;
    assert((a + b)[a.len() + i] == x);
}

/// A call staged for one of an issue's comments is among the issue's calls.
proof fn lemma_comments_contain(task: Seq<char>, comments: Seq<Comment>, bodies: bool, c: int, x: StagingOp)
    requires
        0 <= c < comments.len(),
        comment_ops(task, comments[c], bodies).contains(x),
    ensures
        comments_ops(task, comments, bodies).contains(x),
    decreases comments.len(),
{
    let front = comments.drop_last();
    if c == comments.len() - 1 {
        lemma_in_right(comments_ops(task, front, bodies), comment_ops(task, comments.last(), bodies), x);
    } else {
        assert(front[c] == comments[c]);
        lemma_comments_contain(task, front, bodies, c, x);
        lemma_in_left(comments_ops(task, front, bodies), comment_ops(task, comments.last(), bodies), x);
    }
}

/// A call staged for one change of a comment is among the comment's change calls.
proof fn lemma_changes_contain(task: Seq<char>, comment: Comment, n: nat, k: int, x: StagingOp)
    requires
        0 <= k < n,
        change_ops(task, comment, k as nat, comment.change_log@[k]).contains(x),
    ensures
        changes_ops(task, comment, n).contains(x),
    decreases n,
{
    let m = (n - 1) as nat;
    if k == m {
        lemma_in_right(changes_ops(task, comment, m), change_ops(task, comment, m, comment.change_log@[m as int]), x);
    } else {
        lemma_changes_contain(task, comment, m, k, x);
        lemma_in_left(changes_ops(task, comment, m), change_ops(task, comment, m, comment.change_log@[m as int]), x);
    }
}

/// A call staged for one of an issue's comments is among the calls mapping the issue stages.
proof fn lemma_issue_contains_comment(
    project: Project,
    issue: Issue,
    comments: Seq<Comment>,
    keys: Map<u64, Seq<char>>,
    bodies: bool,
    c: int,
    x: StagingOp,
)
    requires
        0 <= c < comments.len(),
        comment_ops(issue.issue_key@, comments[c], bodies).contains(x),
    ensures
        issue_ops(project, issue, comments, keys, bodies).contains(x),
{
    let task = issue.issue_key@;
    lemma_comments_contain(task, comments, bodies, c, x);
    let front = task_ops(project, issue) + parent_ops(issue, keys)
        + tags_ops(task, "milestone:"@, "milestone"@, "assigned to"@, issue.milestone@)
        + tags_ops(task, "category:"@, "category"@, "categorized as"@, issue.category@)
        + user_ops(issue.created_user)
        + seq![StagingOp::Event { event: created_event(project, issue) }]
        + initial_ops(issue, comments);
    lemma_in_right(front, comments_ops(task, comments, bodies), x);
}

/// The `task_created` event: mapping an issue stages an event `<key>/created`
/// of type `task_created` at the issue's creation time, relating the task
/// ("created task"), its creator's user object ("creator") and the project
/// ("belongs to project").
pub proof fn law_task_created_event(project: Project, issue: Issue, comments: Seq<Comment>, keys: Map<u64, Seq<char>>, bodies: bool)
    ensures
        exists|e: EventRecord|
            #[trigger] issue_ops(project, issue, comments, keys, bodies).contains(StagingOp::Event { event: e })
            && e.id == issue.issue_key@ + "/created"@
            && e.event_type == "task_created"@
            && e.time == issue.created
            && e.relations.contains((issue.issue_key@, "created task"@))
            && e.relations.contains(("user:"@ + decimal(issue.created_user.id as nat), "creator"@))
            && e.relations.contains((project.project_key@, "belongs to project"@)),
{
    let task = issue.issue_key@;
    let e = created_event(project, issue);
    let x = StagingOp::Event { event: e };
    let head = task_ops(project, issue) + parent_ops(issue, keys)
        + tags_ops(task, "milestone:"@, "milestone"@, "assigned to"@, issue.milestone@)
        + tags_ops(task, "category:"@, "category"@, "categorized as"@, issue.category@)
        + user_ops(issue.created_user);
    let p5 = seq![x];
    assert(p5[0] == x);
    lemma_in_right(head, p5, x);
    lemma_in_left(head + p5, initial_ops(issue, comments), x);
    lemma_in_left(head + p5 + initial_ops(issue, comments), comments_ops(task, comments, bodies), x);
    assert(issue_ops(project, issue, comments, keys, bodies) == head + p5 + initial_ops(issue, comments) + comments_ops(
        task,
        comments,
        bodies,
    ));
    assert(e.relations[0] == (task, "created task"@));
    assert(e.relations[1] == ("user:"@ + decimal(issue.created_user.id as nat), "creator"@));
    assert(e.relations[2] == (project.project_key@, "belongs to project"@));
}

/// Comment events: for a comment with non-empty text, mapping its issue
/// stages an event `<key>/comment/<id>` of type `comment_added` at the
/// comment's time, relating the task ("commented on") and the comment
/// author's user object `user:<id>` ("commenter").
pub proof fn law_comment_event(
    project: Project,
    issue: Issue,
    comments: Seq<Comment>,
    keys: Map<u64, Seq<char>>,
    bodies: bool,
    c: int,
)
    requires
        0 <= c < comments.len(),
        comments[c].content is Some,
        comments[c].content.unwrap()@.len() > 0,
    ensures
        exists|e: EventRecord|
            #[trigger] issue_ops(project, issue, comments, keys, bodies).contains(StagingOp::Event { event: e })
            && e.id == issue.issue_key@ + "/comment/"@ + decimal(comments[c].id as nat)
            && e.event_type == "comment_added"@
            && e.time == comments[c].created
            && e.relations.contains((issue.issue_key@, "commented on"@))
            && e.relations.contains(("user:"@ + decimal(comments[c].created_user.id as nat), "commenter"@))
            && (bodies ==> e.attributes.contains(("body"@, comments[c].content.unwrap()@)))
            && (!bodies ==> e.attributes.len() == 0),
{
    let task = issue.issue_key@;
    let comment = comments[c];
    assert(has_text(comment));
    let e = comment_event(task, comment, bodies);
    let x = StagingOp::Event { event: e };
    let users = user_ops(comment.created_user);
    let ev = seq![x];
    assert(ev[0] == x);
    lemma_in_right(users, ev, x);
    lemma_in_left(users + ev, changes_ops(task, comment, comment.change_log@.len() as nat), x);
    lemma_issue_contains_comment(project, issue, comments, keys, bodies, c, x);
    assert(e.relations[0] == (task, "commented on"@));
    assert(e.relations[1] == ("user:"@ + decimal(comment.created_user.id as nat), "commenter"@));
    if bodies {
        assert(e.attributes[0] == ("body"@, comment.content.unwrap()@));
    }
}

/// Change events: for a changeLog entry `k` of a comment whose field is on
/// the whitelist (`status`, `assigner`, `priority`, `milestone`,
/// `limitDate`), mapping its issue stages an event
/// `<key>/change/<comment id>/<k>` at the comment's time that carries the
/// provenance `_source = backlog-changelog`, the entry's original value as
/// `old_value` and its new value as `new_value`, each when present.
pub proof fn law_change_event_values(
    project: Project,
    issue: Issue,
    comments: Seq<Comment>,
    keys: Map<u64, Seq<char>>,
    bodies: bool,
    c: int,
    k: int,
)
    requires
        0 <= c < comments.len(),
        0 <= k < comments[c].change_log@.len(),
        ({
            let f = comments[c].change_log@[k].field@;
            f == "status"@ || f == "assigner"@ || f == "priority"@ || f == "milestone"@ || f == "limitDate"@
        }),
    ensures
        exists|e: EventRecord|
            #[trigger] issue_ops(project, issue, comments, keys, bodies).contains(StagingOp::Event { event: e })
            && e.id == issue.issue_key@ + "/change/"@ + decimal(comments[c].id as nat) + "/"@ + decimal(k as nat)
            && e.time == comments[c].created
            && e.attributes.contains(("_source"@, "backlog-changelog"@))
            && (comments[c].change_log@[k].original_value matches Some(v) ==> e.attributes.contains(("old_value"@, v@)))
            && (comments[c].change_log@[k].new_value matches Some(v) ==> e.attributes.contains(("new_value"@, v@))),
{
    let task = issue.issue_key@;
    let comment = comments[c];
    let change = comment.change_log@[k];
    let kind = spec_change_kind(change.field@);
    assert(kind is Some);
    let (event_type, attr) = kind.unwrap();
    let e = EventRecord {
        id: change_event_id(task, comment, k as nat),
        event_type,
        time: comment.created,
        attributes: change_attributes(change),
        relations: seq![(task, attr + " updated"@), (crate::mapper::user_key(comment.created_user), "changed by"@)],
    };
    let x = StagingOp::Event { event: e };
    let ops = change_ops(task, comment, k as nat, change);
    assert(ops.last() == x);
    assert(ops.contains(x)) by {
        assert(ops[ops.len() - 1] == x);
    }
    lemma_changes_contain(task, comment, comment.change_log@.len() as nat, k, x);
    let users = user_ops(comment.created_user);
    let ev = if has_text(comment) {
        seq![StagingOp::Event { event: comment_event(task, comment, bodies) }]
    } else {
        Seq::<StagingOp>::empty()
    };
    lemma_in_right(users + ev, changes_ops(task, comment, comment.change_log@.len() as nat), x);
    lemma_issue_contains_comment(project, issue, comments, keys, bodies, c, x);
    let src = seq![("_source"@, "backlog-changelog"@)];
    let old = match change.original_value {
        Some(v) => seq![("old_value"@, v@)],
        None => Seq::empty(),
    };
    let new = match change.new_value {
        Some(v) => seq![("new_value"@, v@)],
        None => Seq::empty(),
    };
    assert(e.attributes == src + old + new);
    assert(src[0] == ("_source"@, "backlog-changelog"@));
    lemma_in_left(src, old, ("_source"@, "backlog-changelog"@));
    lemma_in_left(src + old, new, ("_source"@, "backlog-changelog"@));
    if let Some(v) = change.original_value {
        assert(old[0] == ("old_value"@, v@));
        lemma_in_right(src, old, ("old_value"@, v@));
        lemma_in_left(src + old, new, ("old_value"@, v@));
    }
    if let Some(v) = change.new_value {
        assert(new[0] == ("new_value"@, v@));
        lemma_in_right(src + old, new, ("new_value"@, v@));
    }
}

/// How many of `ops` link from `source` with qualifier `qualifier`.
pub open spec fn links_count(ops: Seq<StagingOp>, source: Seq<char>, qualifier: Seq<char>) -> nat
    decreases ops.len(),
{
    if ops.len() == 0 {
        0
    } else {
        links_count(ops.drop_last(), source, qualifier) + match ops.last() {
            StagingOp::Link { source: s, target: _, qualifier: q } => if s == source && q == qualifier {
                1nat
            } else {
                0nat
            },
            _ => 0nat,
        }
    }
}

proof fn lemma_links_append(a: Seq<StagingOp>, b: Seq<StagingOp>, source: Seq<char>, qualifier: Seq<char>)
    ensures
        links_count(a + b, source, qualifier) == links_count(a, source, qualifier) + links_count(b, source, qualifier),
    decreases b.len(),
{
    if b.len() == 0 {
        assert(a + b =~= a);
    } else {
        lemma_links_append(a, b.drop_last(), source, qualifier);
        assert((a + b).drop_last() =~= a + b.drop_last());
        assert((a + b).last() == b.last());
    }
}

proof fn lemma_no_links(ops: Seq<StagingOp>, source: Seq<char>, qualifier: Seq<char>)
    requires
        forall|i: int| 0 <= i < ops.len() ==> !(#[trigger] ops[i] is Link),
    ensures
        links_count(ops, source, qualifier) == 0,
    decreases ops.len(),
{
    if ops.len() > 0 {
        assert forall|i: int| 0 <= i < ops.drop_last().len() implies !(#[trigger] ops.drop_last()[i] is Link) by {
            assert(ops.drop_last()[i] == ops[i]);
        }
        lemma_no_links(ops.drop_last(), source, qualifier);
        assert(!(ops[ops.len() - 1] is Link));
    }
}

proof fn lemma_qualifiers_differ()
    ensures
        "belongs to"@ != "assigned to"@,
        "belongs to"@ != "categorized as"@,
        "parent of"@ != "assigned to"@,
        "parent of"@ != "categorized as"@,
        "assigned to"@ != "categorized as"@,
{
    reveal_strlit("belongs to");
    reveal_strlit("assigned to");
    reveal_strlit("categorized as");
    reveal_strlit("parent of");
    assert("belongs to"@.len() != "assigned to"@.len());
    assert("belongs to"@.len() != "categorized as"@.len());
    assert("parent of"@.len() != "assigned to"@.len());
    assert("parent of"@.len() != "categorized as"@.len());
    assert("assigned to"@.len() != "categorized as"@.len());
}

/// Milestones or categories stage one link from the task per tag, with the given qualifier.
proof fn lemma_tags_links(
    task: Seq<char>,
    prefix: Seq<char>,
    object_type: Seq<char>,
    qualifier: Seq<char>,
    tags: Seq<Named>,
    other: Seq<char>,
)
    requires
        other != qualifier,
    ensures
        links_count(tags_ops(task, prefix, object_type, qualifier, tags), task, qualifier) == tags.len(),
        links_count(tags_ops(task, prefix, object_type, qualifier, tags), task, other) == 0,
    decreases tags.len(),
{
    if tags.len() > 0 {
        lemma_tags_links(task, prefix, object_type, qualifier, tags.drop_last(), other);
        let t = tag_ops(task, prefix, object_type, qualifier, tags.last());
        lemma_links_append(tags_ops(task, prefix, object_type, qualifier, tags.drop_last()), t, task, qualifier);
        lemma_links_append(tags_ops(task, prefix, object_type, qualifier, tags.drop_last()), t, task, other);
        let two = t.drop_last();
        assert forall|i: int| 0 <= i < two.len() implies !(#[trigger] two[i] is Link) by {}
        lemma_no_links(two, task, qualifier);
        lemma_no_links(two, task, other);
    }
}

/// A tag's calls are among the calls for all the tags.
proof fn lemma_tags_contain(
    task: Seq<char>,
    prefix: Seq<char>,
    object_type: Seq<char>,
    qualifier: Seq<char>,
    tags: Seq<Named>,
    i: int,
    x: StagingOp,
)
    requires
        0 <= i < tags.len(),
        tag_ops(task, prefix, object_type, qualifier, tags[i]).contains(x),
    ensures
        tags_ops(task, prefix, object_type, qualifier, tags).contains(x),
    decreases tags.len(),
{
    let front = tags.drop_last();
    if i == tags.len() - 1 {
        lemma_in_right(tags_ops(task, prefix, object_type, qualifier, front), tag_ops(task, prefix, object_type, qualifier, tags.last()), x);
    } else {
        assert(front[i] == tags[i]);
        lemma_tags_contain(task, prefix, object_type, qualifier, front, i, x);
        lemma_in_left(tags_ops(task, prefix, object_type, qualifier, front), tag_ops(task, prefix, object_type, qualifier, tags.last()), x);
    }
}

proof fn lemma_changes_no_links(task: Seq<char>, comment: Comment, n: nat, source: Seq<char>, qualifier: Seq<char>)
    requires
        n <= comment.change_log@.len(),
    ensures
        links_count(changes_ops(task, comment, n), source, qualifier) == 0,
    decreases n,
{
    if n > 0 {
        let m = (n - 1) as nat;
        lemma_changes_no_links(task, comment, m, source, qualifier);
        let ops = change_ops(task, comment, m, comment.change_log@[m as int]);
        assert forall|i: int| 0 <= i < ops.len() implies !(#[trigger] ops[i] is Link) by {}
        lemma_no_links(ops, source, qualifier);
        lemma_links_append(changes_ops(task, comment, m), ops, source, qualifier);
    }
}

proof fn lemma_comments_no_links(task: Seq<char>, comments: Seq<Comment>, bodies: bool, source: Seq<char>, qualifier: Seq<char>)
    ensures
        links_count(comments_ops(task, comments, bodies), source, qualifier) == 0,
    decreases comments.len(),
{
    if comments.len() > 0 {
        lemma_comments_no_links(task, comments.drop_last(), bodies, source, qualifier);
        let comment = comments.last();
        let users = user_ops(comment.created_user);
        let ev = if has_text(comment) {
            seq![StagingOp::Event { event: comment_event(task, comment, bodies) }]
        } else {
            Seq::<StagingOp>::empty()
        };
        let chg = changes_ops(task, comment, comment.change_log@.len() as nat);
        assert forall|i: int| 0 <= i < (users + ev).len() implies !(#[trigger] (users + ev)[i] is Link) by {
            if i < users.len() {
                assert((users + ev)[i] == users[i]);
            } else {
                assert((users + ev)[i] == ev[i - users.len()]);
            }
        }
        lemma_no_links(users + ev, source, qualifier);
        lemma_changes_no_links(task, comment, comment.change_log@.len() as nat, source, qualifier);
        lemma_links_append(users + ev, chg, source, qualifier);
        lemma_links_append(comments_ops(task, comments.drop_last(), bodies), comment_ops(task, comment, bodies), source, qualifier);
    }
}

/// Links from the task with qualifier `q` among all of an issue's calls,
/// for a qualifier other than the project and parent ones.
proof fn lemma_issue_links(
    project: Project,
    issue: Issue,
    comments: Seq<Comment>,
    keys: Map<u64, Seq<char>>,
    bodies: bool,
    q: Seq<char>,
)
    requires
        q != "belongs to"@,
        q != "parent of"@,
    ensures
        links_count(issue_ops(project, issue, comments, keys, bodies), issue.issue_key@, q) == links_count(
            tags_ops(issue.issue_key@, "milestone:"@, "milestone"@, "assigned to"@, issue.milestone@),
            issue.issue_key@,
            q,
        ) + links_count(
            tags_ops(issue.issue_key@, "category:"@, "category"@, "categorized as"@, issue.category@),
            issue.issue_key@,
            q,
        ),
{
    let task = issue.issue_key@;
    let p0 = task_ops(project, issue);
    let p1 = parent_ops(issue, keys);
    let p2 = tags_ops(task, "milestone:"@, "milestone"@, "assigned to"@, issue.milestone@);
    let p3 = tags_ops(task, "category:"@, "category"@, "categorized as"@, issue.category@);
    let p4 = user_ops(issue.created_user);
    let p5 = seq![StagingOp::Event { event: created_event(project, issue) }];
    let p6 = initial_ops(issue, comments);
    let p7 = comments_ops(task, comments, bodies);
    assert(links_count(p0.drop_last(), task, q) == 0) by {
        assert forall|i: int| 0 <= i < p0.drop_last().len() implies !(#[trigger] p0.drop_last()[i] is Link) by {}
        lemma_no_links(p0.drop_last(), task, q);
    }
    assert(links_count(p0, task, q) == 0);
    assert(links_count(p1, task, q) == 0) by {
        if p1.len() > 0 {
            assert(p1.drop_last() =~= Seq::<StagingOp>::empty());
            assert(links_count(p1.drop_last(), task, q) == 0);
            assert(p1.last() matches StagingOp::Link { qualifier, .. } && qualifier == "parent of"@);
        } else {
            assert(p1 =~= Seq::<StagingOp>::empty());
        }
    }
    assert forall|i: int| 0 <= i < p4.len() implies !(#[trigger] p4[i] is Link) by {}
    lemma_no_links(p4, task, q);
    assert forall|i: int| 0 <= i < p5.len() implies !(#[trigger] p5[i] is Link) by {}
    lemma_no_links(p5, task, q);
    assert forall|i: int| 0 <= i < p6.len() implies !(#[trigger] p6[i] is Link) by {
        crate::laws::lemma_issue_head_no_events(project, issue, comments, keys);
    }
    lemma_no_links(p6, task, q);
    lemma_comments_no_links(task, comments, bodies, task, q);
    lemma_links_append(p0, p1, task, q);
    lemma_links_append(p0 + p1, p2, task, q);
    lemma_links_append(p0 + p1 + p2, p3, task, q);
    lemma_links_append(p0 + p1 + p2 + p3, p4, task, q);
    lemma_links_append(p0 + p1 + p2 + p3 + p4, p5, task, q);
    lemma_links_append(p0 + p1 + p2 + p3 + p4 + p5, p6, task, q);
    lemma_links_append(p0 + p1 + p2 + p3 + p4 + p5 + p6, p7, task, q);
}

/// Milestones and categories: for every milestone (category) of an issue,
/// mapping it stages the object `milestone:<id>` (`category:<id>`) of type
/// `milestone` (`category`) and a link to it from the task with qualifier
/// "assigned to" ("categorized as"); the task gets exactly as many such
/// links as the issue has milestones (categories).
pub proof fn law_milestone_and_category_links(
    project: Project,
    issue: Issue,
    comments: Seq<Comment>,
    keys: Map<u64, Seq<char>>,
    bodies: bool,
)
    ensures
        ({
            let ops = issue_ops(project, issue, comments, keys, bodies);
            let task = issue.issue_key@;
            &&& forall|i: int|
                0 <= i < issue.milestone@.len() ==> {
                    &&& ops.contains(StagingOp::Upsert { id: "milestone:"@ + decimal((#[trigger] issue.milestone@[i]).id as nat), object_type: "milestone"@ })
                    &&& ops.contains(StagingOp::Link { source: task, target: "milestone:"@ + decimal(issue.milestone@[i].id as nat), qualifier: "assigned to"@ })
                    &&& ops.contains(StagingOp::Attribute { id: "milestone:"@ + decimal(issue.milestone@[i].id as nat), name: "name"@, value: issue.milestone@[i].name@, time: crate::models::Timestamp::epoch() })
                }
            &&& forall|i: int|
                0 <= i < issue.category@.len() ==> {
                    &&& ops.contains(StagingOp::Upsert { id: "category:"@ + decimal((#[trigger] issue.category@[i]).id as nat), object_type: "category"@ })
                    &&& ops.contains(StagingOp::Link { source: task, target: "category:"@ + decimal(issue.category@[i].id as nat), qualifier: "categorized as"@ })
                    &&& ops.contains(StagingOp::Attribute { id: "category:"@ + decimal(issue.category@[i].id as nat), name: "name"@, value: issue.category@[i].name@, time: crate::models::Timestamp::epoch() })
                }
            &&& links_count(ops, task, "assigned to"@) == issue.milestone@.len()
            &&& links_count(ops, task, "categorized as"@) == issue.category@.len()
        }),
{
    let task = issue.issue_key@;
    let ops = issue_ops(project, issue, comments, keys, bodies);
    let p0 = task_ops(project, issue);
    let p1 = parent_ops(issue, keys);
    let p2 = tags_ops(task, "milestone:"@, "milestone"@, "assigned to"@, issue.milestone@);
    let p3 = tags_ops(task, "category:"@, "category"@, "categorized as"@, issue.category@);
    let rest = user_ops(issue.created_user) + seq![StagingOp::Event { event: created_event(project, issue) }]
        + initial_ops(issue, comments) + comments_ops(task, comments, bodies);
    assert(ops =~= (p0 + p1) + p2 + p3 + rest);
    assert forall|i: int| 0 <= i < issue.milestone@.len() implies {
        &&& ops.contains(StagingOp::Upsert { id: "milestone:"@ + decimal((#[trigger] issue.milestone@[i]).id as nat), object_type: "milestone"@ })
        &&& ops.contains(StagingOp::Link { source: task, target: "milestone:"@ + decimal(issue.milestone@[i].id as nat), qualifier: "assigned to"@ })
        &&& ops.contains(StagingOp::Attribute { id: "milestone:"@ + decimal(issue.milestone@[i].id as nat), name: "name"@, value: issue.milestone@[i].name@, time: crate::models::Timestamp::epoch() })
    } by {
        let tag = issue.milestone@[i];
        let t = tag_ops(task, "milestone:"@, "milestone"@, "assigned to"@, tag);
        let up = StagingOp::Upsert { id: "milestone:"@ + decimal(tag.id as nat), object_type: "milestone"@ };
        let link = StagingOp::Link { source: task, target: "milestone:"@ + decimal(tag.id as nat), qualifier: "assigned to"@ };
        assert(t[0] == up);
        assert(t[2] == link);
        let nm = t[1];
        lemma_tags_contain(task, "milestone:"@, "milestone"@, "assigned to"@, issue.milestone@, i, nm);
        lemma_in_right(p0 + p1, p2, nm);
        lemma_in_left(p0 + p1 + p2, p3, nm);
        lemma_in_left(p0 + p1 + p2 + p3, rest, nm);
        lemma_tags_contain(task, "milestone:"@, "milestone"@, "assigned to"@, issue.milestone@, i, up);
        lemma_tags_contain(task, "milestone:"@, "milestone"@, "assigned to"@, issue.milestone@, i, link);
        lemma_in_right(p0 + p1, p2, up);
        lemma_in_right(p0 + p1, p2, link);
        lemma_in_left(p0 + p1 + p2, p3, up);
        lemma_in_left(p0 + p1 + p2, p3, link);
        lemma_in_left(p0 + p1 + p2 + p3, rest, up);
        lemma_in_left(p0 + p1 + p2 + p3, rest, link);
    }
    assert forall|i: int| 0 <= i < issue.category@.len() implies {
        &&& ops.contains(StagingOp::Upsert { id: "category:"@ + decimal((#[trigger] issue.category@[i]).id as nat), object_type: "category"@ })
        &&& ops.contains(StagingOp::Link { source: task, target: "category:"@ + decimal(issue.category@[i].id as nat), qualifier: "categorized as"@ })
        &&& ops.contains(StagingOp::Attribute { id: "category:"@ + decimal(issue.category@[i].id as nat), name: "name"@, value: issue.category@[i].name@, time: crate::models::Timestamp::epoch() })
    } by {
        let tag = issue.category@[i];
        let t = tag_ops(task, "category:"@, "category"@, "categorized as"@, tag);
        let up = StagingOp::Upsert { id: "category:"@ + decimal(tag.id as nat), object_type: "category"@ };
        let link = StagingOp::Link { source: task, target: "category:"@ + decimal(tag.id as nat), qualifier: "categorized as"@ };
        assert(t[0] == up);
        assert(t[2] == link);
        let nm = t[1];
        lemma_tags_contain(task, "category:"@, "category"@, "categorized as"@, issue.category@, i, nm);
        lemma_in_right(p0 + p1 + p2, p3, nm);
        lemma_in_left(p0 + p1 + p2 + p3, rest, nm);
        lemma_tags_contain(task, "category:"@, "category"@, "categorized as"@, issue.category@, i, up);
        lemma_tags_contain(task, "category:"@, "category"@, "categorized as"@, issue.category@, i, link);
        lemma_in_right(p0 + p1 + p2, p3, up);
        lemma_in_right(p0 + p1 + p2, p3, link);
        lemma_in_left(p0 + p1 + p2 + p3, rest, up);
        lemma_in_left(p0 + p1 + p2 + p3, rest, link);
    }
    lemma_qualifiers_differ();
    lemma_tags_links(task, "milestone:"@, "milestone"@, "assigned to"@, issue.milestone@, "categorized as"@);
    lemma_tags_links(task, "category:"@, "category"@, "categorized as"@, issue.category@, "assigned to"@);
    lemma_issue_links(project, issue, comments, keys, bodies, "assigned to"@);
    lemma_issue_links(project, issue, comments, keys, bodies, "categorized as"@);
}

proof fn lemma_changes_of_append(a: Seq<ChangeLogEntry>, b: Seq<ChangeLogEntry>, attr: Seq<char>)
    ensures
        changes_of(a + b, attr) == changes_of(a, attr) + changes_of(b, attr),
    decreases b.len(),
{
    if b.len() == 0 {
        assert(a + b =~= a);
        assert(changes_of(a, attr) + changes_of(b, attr) =~= changes_of(a, attr));
    } else {
        lemma_changes_of_append(a, b.drop_last(), attr);
        assert((a + b).drop_last() =~= a + b.drop_last());
        assert((a + b).last() == b.last());
        if updates(b.last(), attr) {
            assert(changes_of(a, attr) + changes_of(b.drop_last(), attr).push(b.last()) =~= (changes_of(a, attr)
                + changes_of(b.drop_last(), attr)).push(b.last()));
        }
    }
}

proof fn lemma_changes_of_none(a: Seq<ChangeLogEntry>, attr: Seq<char>)
    requires
        forall|i: int| 0 <= i < a.len() ==> !updates(#[trigger] a[i], attr),
    ensures
        changes_of(a, attr) == Seq::<ChangeLogEntry>::empty(),
    decreases a.len(),
{
    if a.len() > 0 {
        assert forall|i: int| 0 <= i < a.drop_last().len() implies !updates(#[trigger] a.drop_last()[i], attr) by {
            assert(a.drop_last()[i] == a[i]);
        }
        lemma_changes_of_none(a.drop_last(), attr);
        assert(!updates(a[a.len() - 1], attr));
    }
}

/// Every entry of `all_entries(s)` is an entry of one of the comments of `s`.
proof fn lemma_all_entries_member(s: Seq<Comment>, i: int)
    requires
        0 <= i < all_entries(s).len(),
    ensures
        exists|c: int, j: int| 0 <= c < s.len() && 0 <= j < s[c].change_log@.len() && all_entries(s)[i] == s[c].change_log@[j],
    decreases s.len(),
{
    let front = s.drop_last();
    let n = all_entries(front).len();
    if i < n {
        lemma_all_entries_member(front, i);
        let (c, j) = choose|c: int, j: int| 0 <= c < front.len() && 0 <= j < front[c].change_log@.len() && all_entries(front)[i] == front[c].change_log@[j];
        assert(front[c] == s[c]);
        assert(all_entries(s)[i] == s[c].change_log@[j]);
    } else {
        assert(all_entries(s)[i] == s[s.len() - 1].change_log@[i - n]);
    }
}

/// For the four attributes with values at creation, an entry updates the
/// attribute exactly when its field is the attribute's field.
proof fn lemma_updates_field(e: ChangeLogEntry, field: Seq<char>, attr: Seq<char>)
    requires
        (field == "status"@ && attr == "status"@) || (field == "priority"@ && attr == "priority"@) || (field == "assigner"@
            && attr == "assignee"@) || (field == "limitDate"@ && attr == "due_date"@),
    ensures
        updates(e, attr) <==> e.field@ == field,
{
    reveal_strlit("status");
    reveal_strlit("priority");
    reveal_strlit("assignee");
    reveal_strlit("milestone");
    reveal_strlit("due_date");
    reveal_strlit("assigner");
    reveal_strlit("limitDate");
    assert("status"@.len() != "priority"@.len());
    assert("status"@.len() != "assignee"@.len());
    assert("status"@.len() != "milestone"@.len());
    assert("status"@.len() != "due_date"@.len());
    assert("priority"@[0] != "assignee"@[0]);
    assert("priority"@.len() != "milestone"@.len());
    assert("priority"@[0] != "due_date"@[0]);
    assert("assignee"@.len() != "milestone"@.len());
    assert("assignee"@[0] != "due_date"@[0]);
    assert("milestone"@.len() != "due_date"@.len());
    assert("assigner"@.len() != "status"@.len());
    assert("assigner"@[0] != "priority"@[0]);
    assert("assigner"@.len() != "milestone"@.len());
    assert("assigner"@.len() != "limitDate"@.len());
    assert("priority"@.len() != "limitDate"@.len());
    assert("status"@.len() != "limitDate"@.len());
    assert("milestone"@[0] != "limitDate"@[0]);
}

/// Attribute values at creation: when the field behind `status`,
/// `priority`, `assignee` or `due_date` changed at least once, mapping the
/// issue observes on the task, at the issue's creation time, the original
/// value of the earliest entry that changes it (earliest comment first,
/// then earliest entry), when that entry gives one.
pub proof fn law_initial_value_is_first_original(
    project: Project,
    issue: Issue,
    comments: Seq<Comment>,
    keys: Map<u64, Seq<char>>,
    bodies: bool,
    field: Seq<char>,
    attr: Seq<char>,
    c: int,
    j: int,
)
    requires
        (field == "status"@ && attr == "status"@) || (field == "priority"@ && attr == "priority"@) || (field == "assigner"@
            && attr == "assignee"@) || (field == "limitDate"@ && attr == "due_date"@),
        0 <= c < comments.len(),
        0 <= j < comments[c].change_log@.len(),
        comments[c].change_log@[j].field@ == field,
        forall|c2: int, j2: int|
            0 <= c2 <= c && 0 <= j2 < comments[c2].change_log@.len() && (c2 < c || j2 < j) ==> (#[trigger] comments[c2].change_log@[j2]).field@
                != field,
        comments[c].change_log@[j].original_value is Some,
    ensures
        issue_ops(project, issue, comments, keys, bodies).contains(
            StagingOp::Attribute {
                id: issue.issue_key@,
                name: attr,
                value: comments[c].change_log@[j].original_value.unwrap()@,
                time: issue.created,
            },
        ),
{
    let entry = comments[c].change_log@[j];
    let log = comments[c].change_log@;
    let before = comments.take(c);
    let after = comments.skip(c + 1);
    // The entries, split around the earliest change.
    assert(comments =~= before + (seq![comments[c]] + after));
    lemma_all_entries_append(before, seq![comments[c]] + after);
    lemma_all_entries_append(seq![comments[c]], after);
    assert(seq![comments[c]].drop_last() =~= Seq::<Comment>::empty());
    assert(all_entries(Seq::<Comment>::empty()) =~= Seq::<ChangeLogEntry>::empty());
    assert(seq![comments[c]].last() == comments[c]);
    assert(all_entries(seq![comments[c]]) =~= log);
    let a = all_entries(before);
    assert forall|i: int| 0 <= i < a.len() implies !updates(#[trigger] a[i], attr) by {
        lemma_all_entries_member(before, i);
        let (c2, j2) = choose|c2: int, j2: int| 0 <= c2 < before.len() && 0 <= j2 < before[c2].change_log@.len() && a[i] == before[c2].change_log@[j2];
        assert(before[c2] == comments[c2]);
        assert(comments[c2].change_log@[j2].field@ != field);
        lemma_updates_field(a[i], field, attr);
    }
    lemma_changes_of_none(a, attr);
    let lead = log.take(j);
    assert forall|i: int| 0 <= i < lead.len() implies !updates(#[trigger] lead[i], attr) by {
        assert(lead[i] == comments[c].change_log@[i]);
        lemma_updates_field(lead[i], field, attr);
    }
    lemma_changes_of_none(lead, attr);
    let tail = log.skip(j + 1);
    assert(log =~= lead + (seq![entry] + tail));
    lemma_updates_field(entry, field, attr);
    assert(seq![entry].drop_last() =~= Seq::<ChangeLogEntry>::empty());
    assert(changes_of(Seq::<ChangeLogEntry>::empty(), attr) =~= Seq::<ChangeLogEntry>::empty());
    assert(seq![entry].last() == entry);
    assert(changes_of(seq![entry], attr) =~= seq![entry]);
    lemma_changes_of_append(seq![entry], tail, attr);
    lemma_changes_of_append(lead, seq![entry] + tail, attr);
    let r = all_entries(after);
    lemma_changes_of_append(a, log + r, attr);
    lemma_changes_of_append(log, r, attr);
    let all = all_entries(comments);
    assert(all == a + (log + r));
    let ch = changes_of(all, attr);
    assert(ch == seq![entry] + changes_of(tail, attr) + changes_of(r, attr)) by {
        assert(changes_of(log, attr) == changes_of(lead, attr) + (seq![entry] + changes_of(tail, attr)));
        assert(changes_of(lead, attr) + (seq![entry] + changes_of(tail, attr)) =~= seq![entry] + changes_of(tail, attr));
        assert(changes_of(a, attr) + (changes_of(log, attr) + changes_of(r, attr)) =~= seq![entry] + changes_of(tail, attr)
            + changes_of(r, attr));
    }
    assert(ch.len() > 0 && ch[0] == entry);
    let v = entry.original_value.unwrap()@;
    assert(forall|cur: Option<Seq<char>>| #[trigger] initial_value(comments, attr, cur) == Some(v));
    // The observation sits among the initial values, which the issue's calls hold.
    let task = issue.issue_key@;
    let x = StagingOp::Attribute { id: task, name: attr, value: v, time: issue.created };
    let s0 = initial_op(task, issue.created, "status"@, initial_value(comments, "status"@, Some(issue.status.name@)));
    let s1 = initial_op(task, issue.created, "priority"@, initial_value(comments, "priority"@, Some(issue.priority.name@)));
    let s2 = initial_op(task, issue.created, "assignee"@, initial_value(comments, "assignee"@, crate::mapper::assignee_name(issue)));
    let s3 = initial_op(task, issue.created, "due_date"@, initial_value(comments, "due_date"@, crate::mapper::due_date_text(issue)));
    assert(initial_ops(issue, comments) == s0 + s1 + s2 + s3);
    if attr == "status"@ {
        assert(s0[0] == x);
        lemma_in_left(s0, s1, x);
        lemma_in_left(s0 + s1, s2, x);
        lemma_in_left(s0 + s1 + s2, s3, x);
    } else if attr == "priority"@ {
        assert(s1[0] == x);
        lemma_in_right(s0, s1, x);
        lemma_in_left(s0 + s1, s2, x);
        lemma_in_left(s0 + s1 + s2, s3, x);
    } else if attr == "assignee"@ {
        assert(s2[0] == x);
        lemma_in_right(s0 + s1, s2, x);
        lemma_in_left(s0 + s1 + s2, s3, x);
    } else {
        assert(s3[0] == x);
        lemma_in_right(s0 + s1 + s2, s3, x);
    }
    let head = task_ops(project, issue) + parent_ops(issue, keys)
        + tags_ops(task, "milestone:"@, "milestone"@, "assigned to"@, issue.milestone@)
        + tags_ops(task, "category:"@, "category"@, "categorized as"@, issue.category@)
        + user_ops(issue.created_user)
        + seq![StagingOp::Event { event: created_event(project, issue) }];
    lemma_in_right(head, initial_ops(issue, comments), x);
    lemma_in_left(head + initial_ops(issue, comments), comments_ops(task, comments, bodies), x);
    assert(issue_ops(project, issue, comments, keys, bodies) == head + initial_ops(issue, comments) + comments_ops(
        task,
        comments,
        bodies,
    ));
}

/// The field names of the whitelist differ from each other, and so do the
/// attribute names they update.
proof fn lemma_whitelist_literals()
    ensures
        "status"@ != "assigner"@,
        "status"@ != "priority"@,
        "status"@ != "milestone"@,
        "status"@ != "limitDate"@,
        "assigner"@ != "priority"@,
        "assigner"@ != "milestone"@,
        "assigner"@ != "limitDate"@,
        "priority"@ != "milestone"@,
        "priority"@ != "limitDate"@,
        "milestone"@ != "limitDate"@,
{
    reveal_strlit("status");
    reveal_strlit("priority");
    reveal_strlit("milestone");
    reveal_strlit("assigner");
    reveal_strlit("limitDate");
    assert("status"@.len() != "priority"@.len());
    assert("status"@.len() != "milestone"@.len());
    assert("assigner"@.len() != "status"@.len());
    assert("assigner"@[0] != "priority"@[0]);
    assert("assigner"@.len() != "milestone"@.len());
    assert("assigner"@.len() != "limitDate"@.len());
    assert("priority"@.len() != "limitDate"@.len());
    assert("status"@.len() != "limitDate"@.len());
    assert("priority"@.len() != "milestone"@.len());
    assert("milestone"@[0] != "limitDate"@[0]);
}

/// Change events by field: an entry `k` of a comment with field `status`,
/// `assigner`, `priority`, `milestone` or `limitDate` stages the event
/// `<key>/change/<comment id>/<k>` of type `status_changed`,
/// `assignee_changed`, `priority_changed`, `milestone_changed` or
/// `due_date_changed`, relating the task ("<attribute> updated") and the
/// comment author's user object ("changed by"); when the entry has a new
/// value, the task observes it as attribute `status`, `assignee`,
/// `priority`, `milestone` or `due_date` at the comment's time.
pub proof fn law_change_event_kind(
    project: Project,
    issue: Issue,
    comments: Seq<Comment>,
    keys: Map<u64, Seq<char>>,
    bodies: bool,
    c: int,
    k: int,
    event_type: Seq<char>,
    attr: Seq<char>,
)
    requires
        0 <= c < comments.len(),
        0 <= k < comments[c].change_log@.len(),
        ({
            let f = comments[c].change_log@[k].field@;
            ||| f == "status"@ && event_type == "status_changed"@ && attr == "status"@
            ||| f == "assigner"@ && event_type == "assignee_changed"@ && attr == "assignee"@
            ||| f == "priority"@ && event_type == "priority_changed"@ && attr == "priority"@
            ||| f == "milestone"@ && event_type == "milestone_changed"@ && attr == "milestone"@
            ||| f == "limitDate"@ && event_type == "due_date_changed"@ && attr == "due_date"@
        }),
    ensures
        exists|e: EventRecord|
            #[trigger] issue_ops(project, issue, comments, keys, bodies).contains(StagingOp::Event { event: e })
            && e.id == issue.issue_key@ + "/change/"@ + decimal(comments[c].id as nat) + "/"@ + decimal(k as nat)
            && e.event_type == event_type
            && e.relations.contains((issue.issue_key@, attr + " updated"@))
            && e.relations.contains(("user:"@ + decimal(comments[c].created_user.id as nat), "changed by"@)),
        comments[c].change_log@[k].new_value matches Some(v) ==> issue_ops(project, issue, comments, keys, bodies).contains(
            StagingOp::Attribute { id: issue.issue_key@, name: attr, value: v@, time: comments[c].created },
        ),
{
    lemma_whitelist_literals();
    let task = issue.issue_key@;
    let comment = comments[c];
    let change = comment.change_log@[k];
    assert(spec_change_kind(change.field@) == Some((event_type, attr)));
    let e = EventRecord {
        id: change_event_id(task, comment, k as nat),
        event_type,
        time: comment.created,
        attributes: change_attributes(change),
        relations: seq![(task, attr + " updated"@), (crate::mapper::user_key(comment.created_user), "changed by"@)],
    };
    let x = StagingOp::Event { event: e };
    let ops = change_ops(task, comment, k as nat, change);
    let users = user_ops(comment.created_user);
    let ev = if has_text(comment) {
        seq![StagingOp::Event { event: comment_event(task, comment, bodies) }]
    } else {
        Seq::<StagingOp>::empty()
    };
    let n = comment.change_log@.len() as nat;
    assert(ops[ops.len() - 1] == x);
    lemma_changes_contain(task, comment, n, k, x);
    lemma_in_right(users + ev, changes_ops(task, comment, n), x);
    lemma_issue_contains_comment(project, issue, comments, keys, bodies, c, x);
    assert(e.relations[0] == (task, attr + " updated"@));
    assert(e.relations[1] == ("user:"@ + decimal(comment.created_user.id as nat), "changed by"@));
    if let Some(v) = change.new_value {
        let y = StagingOp::Attribute { id: task, name: attr, value: v@, time: comment.created };
        assert(ops[0] == y);
        lemma_changes_contain(task, comment, n, k, y);
        lemma_in_right(users + ev, changes_ops(task, comment, n), y);
        lemma_issue_contains_comment(project, issue, comments, keys, bodies, c, y);
    }
}

/// The task and its creator: mapping an issue stages the task object (type
/// `task`) with its summary and issue type observed at the epoch, links it to
/// its project ("belongs to"), stages the creator's user object
/// `user:<id>` with its name, and, when the parent issue's key is known,
/// links the parent task to this one ("parent of").
pub proof fn law_task_object(project: Project, issue: Issue, comments: Seq<Comment>, keys: Map<u64, Seq<char>>, bodies: bool)
    ensures
        ({
            let ops = issue_ops(project, issue, comments, keys, bodies);
            let task = issue.issue_key@;
            let creator = "user:"@ + decimal(issue.created_user.id as nat);
            &&& ops.contains(StagingOp::Upsert { id: task, object_type: "task"@ })
            &&& ops.contains(StagingOp::Attribute { id: task, name: "summary"@, value: issue.summary@, time: crate::models::Timestamp::epoch() })
            &&& ops.contains(StagingOp::Attribute { id: task, name: "issue_type"@, value: issue.issue_type.name@, time: crate::models::Timestamp::epoch() })
            &&& ops.contains(StagingOp::Link { source: task, target: project.project_key@, qualifier: "belongs to"@ })
            &&& ops.contains(StagingOp::Upsert { id: creator, object_type: "user"@ })
            &&& ops.contains(StagingOp::Attribute { id: creator, name: "name"@, value: issue.created_user.name@, time: crate::models::Timestamp::epoch() })
            &&& (issue.parent_issue_id is Some && keys.contains_key(issue.parent_issue_id.unwrap())) ==> ops.contains(
                StagingOp::Link { source: keys[issue.parent_issue_id.unwrap()], target: task, qualifier: "parent of"@ },
            )
        }),
{
    let task = issue.issue_key@;
    let p0 = task_ops(project, issue);
    let p1 = parent_ops(issue, keys);
    let p2 = tags_ops(task, "milestone:"@, "milestone"@, "assigned to"@, issue.milestone@);
    let p3 = tags_ops(task, "category:"@, "category"@, "categorized as"@, issue.category@);
    let p4 = user_ops(issue.created_user);
    let rest = seq![StagingOp::Event { event: created_event(project, issue) }] + initial_ops(issue, comments) + comments_ops(
        task,
        comments,
        bodies,
    );
    let ops = issue_ops(project, issue, comments, keys, bodies);
    assert(ops =~= p0 + p1 + p2 + p3 + p4 + rest);
    assert forall|x: StagingOp| p0.contains(x) implies ops.contains(x) by {
        lemma_in_left(p0, p1, x);
        lemma_in_left(p0 + p1, p2, x);
        lemma_in_left(p0 + p1 + p2, p3, x);
        lemma_in_left(p0 + p1 + p2 + p3, p4, x);
        lemma_in_left(p0 + p1 + p2 + p3 + p4, rest, x);
    }
    assert forall|x: StagingOp| p1.contains(x) implies ops.contains(x) by {
        lemma_in_right(p0, p1, x);
        lemma_in_left(p0 + p1, p2, x);
        lemma_in_left(p0 + p1 + p2, p3, x);
        lemma_in_left(p0 + p1 + p2 + p3, p4, x);
        lemma_in_left(p0 + p1 + p2 + p3 + p4, rest, x);
    }
    assert forall|x: StagingOp| p4.contains(x) implies ops.contains(x) by {
        lemma_in_right(p0 + p1 + p2 + p3, p4, x);
        lemma_in_left(p0 + p1 + p2 + p3 + p4, rest, x);
    }
    assert(p0[0] == StagingOp::Upsert { id: task, object_type: "task"@ });
    assert(p0[1] == StagingOp::Attribute { id: task, name: "summary"@, value: issue.summary@, time: crate::models::Timestamp::epoch() });
    assert(p0[2] == StagingOp::Attribute { id: task, name: "issue_type"@, value: issue.issue_type.name@, time: crate::models::Timestamp::epoch() });
    assert(p0[3] == StagingOp::Link { source: task, target: project.project_key@, qualifier: "belongs to"@ });
    let creator = "user:"@ + decimal(issue.created_user.id as nat);
    assert(p4[0] == StagingOp::Upsert { id: creator, object_type: "user"@ });
    assert(p4[1] == StagingOp::Attribute { id: creator, name: "name"@, value: issue.created_user.name@, time: crate::models::Timestamp::epoch() });
    if let Some(p) = issue.parent_issue_id {
        if keys.contains_key(p) {
            assert(p1[0] == StagingOp::Link { source: keys[p], target: task, qualifier: "parent of"@ });
        }
    }
}

/// Attribute values at creation without changes: when no entry of any
/// comment changes the field behind `status`, `priority`, `assignee` or
/// `due_date`, mapping the issue observes on the task, at the issue's
/// creation time, the issue's current value (status name, priority name,
/// assignee's name, due date as RFC 3339 text), when it has one.
pub proof fn law_initial_value_without_changes(
    project: Project,
    issue: Issue,
    comments: Seq<Comment>,
    keys: Map<u64, Seq<char>>,
    bodies: bool,
    field: Seq<char>,
    attr: Seq<char>,
)
    requires
        (field == "status"@ && attr == "status"@) || (field == "priority"@ && attr == "priority"@) || (field == "assigner"@
            && attr == "assignee"@) || (field == "limitDate"@ && attr == "due_date"@),
        forall|c: int, j: int|
            0 <= c < comments.len() && 0 <= j < comments[c].change_log@.len() ==> (#[trigger] comments[c].change_log@[j]).field@ != field,
    ensures
        ({
            let ops = issue_ops(project, issue, comments, keys, bodies);
            let task = issue.issue_key@;
            &&& attr == "status"@ ==> ops.contains(StagingOp::Attribute { id: task, name: attr, value: issue.status.name@, time: issue.created })
            &&& attr == "priority"@ ==> ops.contains(StagingOp::Attribute { id: task, name: attr, value: issue.priority.name@, time: issue.created })
            &&& (attr == "assignee"@ && issue.assignee is Some) ==> ops.contains(
                StagingOp::Attribute { id: task, name: attr, value: issue.assignee.unwrap().name@, time: issue.created },
            )
            &&& (attr == "due_date"@ && issue.due_date is Some) ==> ops.contains(
                StagingOp::Attribute {
                    id: task,
                    name: attr,
                    value: crate::mapper::rfc3339_text(issue.due_date.unwrap().spec_secs() as int, issue.due_date.unwrap().spec_nanos() as int),
                    time: issue.created,
                },
            )
        }),
{
    let all = all_entries(comments);
    assert forall|i: int| 0 <= i < all.len() implies !updates(#[trigger] all[i], attr) by {
        lemma_all_entries_member(comments, i);
        let (c, j) = choose|c: int, j: int| 0 <= c < comments.len() && 0 <= j < comments[c].change_log@.len() && all[i] == comments[c].change_log@[j];
        assert(comments[c].change_log@[j].field@ != field);
        lemma_updates_field(all[i], field, attr);
    }
    lemma_changes_of_none(all, attr);
    lemma_attribute_literals();
    assert(forall|cur: Option<Seq<char>>| #[trigger] initial_value(comments, attr, cur) == cur);
    let task = issue.issue_key@;
    let s0 = initial_op(task, issue.created, "status"@, initial_value(comments, "status"@, Some(issue.status.name@)));
    let s1 = initial_op(task, issue.created, "priority"@, initial_value(comments, "priority"@, Some(issue.priority.name@)));
    let s2 = initial_op(task, issue.created, "assignee"@, initial_value(comments, "assignee"@, crate::mapper::assignee_name(issue)));
    let s3 = initial_op(task, issue.created, "due_date"@, initial_value(comments, "due_date"@, crate::mapper::due_date_text(issue)));
    assert(initial_ops(issue, comments) == s0 + s1 + s2 + s3);
    let head = task_ops(project, issue) + parent_ops(issue, keys)
        + tags_ops(task, "milestone:"@, "milestone"@, "assigned to"@, issue.milestone@)
        + tags_ops(task, "category:"@, "category"@, "categorized as"@, issue.category@)
        + user_ops(issue.created_user)
        + seq![StagingOp::Event { event: created_event(project, issue) }];
    assert(issue_ops(project, issue, comments, keys, bodies) == head + initial_ops(issue, comments) + comments_ops(
        task,
        comments,
        bodies,
    ));
    assert forall|x: StagingOp| (s0 + s1 + s2 + s3).contains(x) implies issue_ops(project, issue, comments, keys, bodies).contains(x) by {
        lemma_in_right(head, initial_ops(issue, comments), x);
        lemma_in_left(head + initial_ops(issue, comments), comments_ops(task, comments, bodies), x);
    }
    if attr == "status"@ {
        let x = s0[0];
        lemma_in_left(s0, s1, x);
        lemma_in_left(s0 + s1, s2, x);
        lemma_in_left(s0 + s1 + s2, s3, x);
    } else if attr == "priority"@ {
        let x = s1[0];
        lemma_in_right(s0, s1, x);
        lemma_in_left(s0 + s1, s2, x);
        lemma_in_left(s0 + s1 + s2, s3, x);
    } else if attr == "assignee"@ {
        if issue.assignee is Some {
            let x = s2[0];
            lemma_in_right(s0 + s1, s2, x);
            lemma_in_left(s0 + s1 + s2, s3, x);
        }
    } else {
        if issue.due_date is Some {
            let x = s3[0];
            lemma_in_right(s0 + s1 + s2, s3, x);
        }
    }
}

/// The names of the attributes with values at creation differ from each other.
proof fn lemma_attribute_literals()
    ensures
        "status"@ != "priority"@,
        "status"@ != "assignee"@,
        "status"@ != "due_date"@,
        "priority"@ != "assignee"@,
        "priority"@ != "due_date"@,
        "assignee"@ != "due_date"@,
{
    reveal_strlit("status");
    reveal_strlit("priority");
    reveal_strlit("assignee");
    reveal_strlit("due_date");
    assert("status"@.len() != "priority"@.len());
    assert("status"@.len() != "assignee"@.len());
    assert("status"@.len() != "due_date"@.len());
    assert("priority"@[0] != "assignee"@[0]);
    assert("priority"@[0] != "due_date"@[0]);
    assert("assignee"@[0] != "due_date"@[0]);
}

} // verus!
