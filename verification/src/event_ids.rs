//! Event ids: no two events staged for a project share an id.

use vstd::prelude::*;

use crate::laws::{law_events_belong_to_their_issue, lemma_issue_head_no_events, lemma_no_events_append, no_events};
use crate::mapper::{
    change_event_id, change_ops, changes_ops, comment_event, comment_ops, comments_ops, created_event, has_text,
    initial_ops, issue_ops, pairs_ops, parent_ops, project_all_ops, project_ops, spec_change_kind, tags_ops, task_ops,
    user_ops,
};
use crate::models::{Comment, Issue, Project};
use crate::staging::StagingOp;
use crate::text::{before_first_slash, decimal, no_slash, lemma_decimal_injective, lemma_decimal_shape, lemma_key_then_slash};

verus! {

/// The id of the event that `op` stages, if it stages one.
pub open spec fn staged_event_id(op: StagingOp) -> Option<Seq<char>> {
    match op {
        StagingOp::Event { event } => Some(event.id),
        _ => None,
    }
}

/// Whether the events among `ops` have pairwise different ids.
pub open spec fn event_ids_distinct(ops: Seq<StagingOp>) -> bool {
    forall|i: int, j: int|
        #![trigger staged_event_id(ops[i]), staged_event_id(ops[j])]
        0 <= i < ops.len() && 0 <= j < ops.len() && i != j && staged_event_id(ops[i]) is Some
            && staged_event_id(ops[j]) is Some ==> staged_event_id(ops[i]) != staged_event_id(ops[j])
}

/// Whether no event of `a` shares its id with an event of `b`.
pub open spec fn event_ids_apart(a: Seq<StagingOp>, b: Seq<StagingOp>) -> bool {
    forall|i: int, j: int|
        #![trigger staged_event_id(a[i]), staged_event_id(b[j])]
        0 <= i < a.len() && 0 <= j < b.len() && staged_event_id(a[i]) is Some
            && staged_event_id(b[j]) is Some ==> staged_event_id(a[i]) != staged_event_id(b[j])
}

/// Whether the comments carry pairwise different ids.
pub open spec fn comment_ids_distinct(comments: Seq<Comment>) -> bool {
    forall|i: int, j: int| 0 <= i < j < comments.len() ==> #[trigger] comments[i].id != #[trigger] comments[j].id
}

/// Whether `id` is the id of an event staged on task `task` for the comment with id `cid`.
pub open spec fn comment_owns(task: Seq<char>, cid: u64, id: Seq<char>) -> bool {
    ||| id == task + "/comment/"@ + decimal(cid as nat)
    ||| exists|k: nat| id == task + "/change/"@ + decimal(cid as nat) + "/"@ + #[trigger] decimal(k)
}

/// Equal texts that start alike end alike.
proof fn lemma_cancel_prefix(p: Seq<char>, r1: Seq<char>, r2: Seq<char>)
    requires
        p + r1 == p + r2,
    ensures
        r1 == r2,
{
    assert(r1 =~= (p + r1).subrange(p.len() as int, (p + r1).len() as int));
    assert(r2 =~= (p + r2).subrange(p.len() as int, (p + r2).len() as int));
}

/// `decimal(x) + "/" + decimal(k)` determines both `x` and `k`.
proof fn lemma_slash_pair(x: nat, k: nat, y: nat, l: nat)
    requires
        decimal(x) + "/"@ + decimal(k) == decimal(y) + "/"@ + decimal(l),
    ensures
        x == y,
        k == l,
{
    reveal_strlit("/");
    lemma_decimal_shape(x);
    lemma_decimal_shape(y);
    let s = decimal(x) + "/"@ + decimal(k);
    assert(s =~= decimal(x) + ("/"@ + decimal(k)));
    assert(s =~= decimal(y) + ("/"@ + decimal(l)));
    lemma_key_then_slash(decimal(x), "/"@ + decimal(k));
    lemma_key_then_slash(decimal(y), "/"@ + decimal(l));
    lemma_decimal_injective(x, y);
    lemma_cancel_prefix(decimal(x) + "/"@, decimal(k), decimal(l));
    lemma_decimal_injective(k, l);
}

/// A comment event id and a change event id on the same task differ.
proof fn lemma_comment_not_change(task: Seq<char>, x: nat, y: nat, k: nat)
    ensures
        task + "/comment/"@ + decimal(x) != task + "/change/"@ + decimal(y) + "/"@ + decimal(k),
{
    reveal_strlit("/comment/");
    reveal_strlit("/change/");
    let n = task.len() as int;
    let a = task + "/comment/"@ + decimal(x);
    let b = task + "/change/"@ + decimal(y) + "/"@ + decimal(k);
    assert(a[n + 2] == 'o');
    assert(b[n + 2] == 'h');
}

/// The `task_created` id of a task is no comment's.
proof fn lemma_created_not_owned(task: Seq<char>, cid: u64)
    ensures
        !comment_owns(task, cid, task + "/created"@),
{
    reveal_strlit("/created");
    reveal_strlit("/comment/");
    reveal_strlit("/change/");
    let n = task.len() as int;
    let id = task + "/created"@;
    assert(id[n + 2] == 'r');
    assert((task + "/comment/"@ + decimal(cid as nat))[n + 2] == 'o');
    if exists|k: nat| id == task + "/change/"@ + decimal(cid as nat) + "/"@ + #[trigger] decimal(k) {
        let k = choose|k: nat| id == task + "/change/"@ + decimal(cid as nat) + "/"@ + #[trigger] decimal(k);
        assert((task + "/change/"@ + decimal(cid as nat) + "/"@ + decimal(k))[n + 2] == 'h');
    }
}

/// Two change event ids on the same task are equal only for the same comment and entry.
proof fn lemma_change_id_unique(task: Seq<char>, x: nat, k: nat, y: nat, l: nat)
    requires
        task + "/change/"@ + decimal(x) + "/"@ + decimal(k) == task + "/change/"@ + decimal(y) + "/"@ + decimal(l),
    ensures
        x == y,
        k == l,
{
    let p = task + "/change/"@;
    assert(task + "/change/"@ + decimal(x) + "/"@ + decimal(k) =~= p + (decimal(x) + "/"@ + decimal(k)));
    assert(task + "/change/"@ + decimal(y) + "/"@ + decimal(l) =~= p + (decimal(y) + "/"@ + decimal(l)));
    lemma_cancel_prefix(p, decimal(x) + "/"@ + decimal(k), decimal(y) + "/"@ + decimal(l));
    lemma_slash_pair(x, k, y, l);
}

/// An id that two comments of a task both own belongs to one comment id.
proof fn lemma_owner_unique(task: Seq<char>, x: u64, y: u64, id: Seq<char>)
    requires
        comment_owns(task, x, id),
        comment_owns(task, y, id),
    ensures
        x == y,
{
    let cx = task + "/comment/"@ + decimal(x as nat);
    let cy = task + "/comment/"@ + decimal(y as nat);
    if id == cx && id == cy {
        let p = task + "/comment/"@;
        lemma_cancel_prefix(p, decimal(x as nat), decimal(y as nat));
        lemma_decimal_injective(x as nat, y as nat);
    } else if id == cx {
        let l = choose|l: nat| id == task + "/change/"@ + decimal(y as nat) + "/"@ + #[trigger] decimal(l);
        lemma_comment_not_change(task, x as nat, y as nat, l);
    } else if id == cy {
        let k = choose|k: nat| id == task + "/change/"@ + decimal(x as nat) + "/"@ + #[trigger] decimal(k);
        lemma_comment_not_change(task, y as nat, x as nat, k);
    } else {
        let k = choose|k: nat| id == task + "/change/"@ + decimal(x as nat) + "/"@ + #[trigger] decimal(k);
        let l = choose|l: nat| id == task + "/change/"@ + decimal(y as nat) + "/"@ + #[trigger] decimal(l);
        lemma_change_id_unique(task, x as nat, k, y as nat, l);
    }
}

/// Joining two runs of operations keeps event ids distinct when the runs share none.
proof fn lemma_distinct_append(a: Seq<StagingOp>, b: Seq<StagingOp>)
    requires
        event_ids_distinct(a),
        event_ids_distinct(b),
        event_ids_apart(a, b),
    ensures
        event_ids_distinct(a + b),
{
    let s = a + b;
    assert forall|i: int, j: int|
        #![trigger staged_event_id(s[i]), staged_event_id(s[j])]
        0 <= i < s.len() && 0 <= j < s.len() && i != j && staged_event_id(s[i]) is Some
            && staged_event_id(s[j]) is Some implies staged_event_id(s[i]) != staged_event_id(s[j]) by {
        let n = a.len() as int;
        if i < n && j < n {
            assert(s[i] == a[i] && s[j] == a[j]);
            assert(staged_event_id(a[i]) != staged_event_id(a[j]));
        } else if i < n {
            assert(s[i] == a[i] && s[j] == b[j - n]);
            assert(staged_event_id(a[i]) != staged_event_id(b[j - n]));
        } else if j < n {
            assert(s[i] == b[i - n] && s[j] == a[j]);
            assert(staged_event_id(a[j]) != staged_event_id(b[i - n]));
        } else {
            assert(s[i] == b[i - n] && s[j] == b[j - n]);
            assert(staged_event_id(b[i - n]) != staged_event_id(b[j - n]));
        }
    }
}

/// Operations that stage no event trivially keep ids distinct and apart.
proof fn lemma_no_events_distinct(ops: Seq<StagingOp>, other: Seq<StagingOp>)
    requires
        no_events(ops),
    ensures
        event_ids_distinct(ops),
        event_ids_apart(ops, other),
        event_ids_apart(other, ops),
{
    assert forall|i: int| 0 <= i < ops.len() implies staged_event_id(ops[i]) is None by {
        assert(!(ops[i] is Event));
    }
}

/// Whether every event among `ops` has the id of one of the first `n` changes of `comment`.
pub open spec fn change_ids_below(ops: Seq<StagingOp>, task: Seq<char>, comment: Comment, n: nat) -> bool {
    forall|i: int|
        #![trigger staged_event_id(ops[i])]
        0 <= i < ops.len() && staged_event_id(ops[i]) is Some ==> exists|k: nat|
            k < n && staged_event_id(ops[i]) == Some(#[trigger] change_event_id(task, comment, k))
}

/// The change events of a comment's first `n` entries have distinct ids.
proof fn lemma_changes_distinct(task: Seq<char>, comment: Comment, n: nat)
    requires
        n <= comment.change_log@.len(),
    ensures
        event_ids_distinct(changes_ops(task, comment, n)),
        change_ids_below(changes_ops(task, comment, n), task, comment, n),
    decreases n,
{
    if n > 0 {
        let m = (n - 1) as nat;
        lemma_changes_distinct(task, comment, m);
        let a = changes_ops(task, comment, m);
        let change = comment.change_log@[m as int];
        let b = change_ops(task, comment, m, change);
        let id = change_event_id(task, comment, m);
        // `b` stages at most one event, the last operation, with the id of entry `m`.
        assert forall|j: int| #![trigger staged_event_id(b[j])]
            0 <= j < b.len() && staged_event_id(b[j]) is Some implies j == b.len() - 1 && staged_event_id(b[j]) == Some(id) by {
            match spec_change_kind(change.field@) {
                Some((event_type, attr)) => {
                    if j < b.len() - 1 {
                        assert(!(b[j] is Event));
                    }
                },
                None => {},
            }
        }
        assert(event_ids_distinct(b));
        assert forall|i: int, j: int|
            #![trigger staged_event_id(a[i]), staged_event_id(b[j])]
            0 <= i < a.len() && 0 <= j < b.len() && staged_event_id(a[i]) is Some
                && staged_event_id(b[j]) is Some implies staged_event_id(a[i]) != staged_event_id(b[j]) by {
            let k = choose|k: nat| k < m && staged_event_id(a[i]) == Some(#[trigger] change_event_id(task, comment, k));
            if change_event_id(task, comment, k) == id {
                lemma_change_id_unique(task, comment.id as nat, k, comment.id as nat, m);
            }
        }
        lemma_distinct_append(a, b);
        let s = a + b;
        assert forall|i: int|
            #![trigger staged_event_id(s[i])]
            0 <= i < s.len() && staged_event_id(s[i]) is Some implies exists|k: nat|
                k < n && staged_event_id(s[i]) == Some(#[trigger] change_event_id(task, comment, k)) by {
            if i < a.len() {
                assert(s[i] == a[i]);
                let k = choose|k: nat| k < m && staged_event_id(a[i]) == Some(#[trigger] change_event_id(task, comment, k));
                assert(k < n && staged_event_id(s[i]) == Some(change_event_id(task, comment, k)));
            } else {
                assert(s[i] == b[i - a.len()]);
                assert(staged_event_id(b[i - a.len()]) == Some(id));
            }
        }
    }
}

/// Whether every event among `ops` has an id that comment `cid` of `task` owns.
pub open spec fn ids_owned_by(ops: Seq<StagingOp>, task: Seq<char>, cid: u64) -> bool {
    forall|i: int|
        #![trigger staged_event_id(ops[i])]
        0 <= i < ops.len() && staged_event_id(ops[i]) is Some ==> comment_owns(task, cid, staged_event_id(ops[i]).unwrap())
}

/// The events of one comment have distinct ids, all owned by that comment.
proof fn lemma_comment_distinct(task: Seq<char>, comment: Comment, bodies: bool)
    ensures
        event_ids_distinct(comment_ops(task, comment, bodies)),
        ids_owned_by(comment_ops(task, comment, bodies), task, comment.id),
{
    let users = user_ops(comment.created_user);
    let cid = comment.id;
    let text_id = task + "/comment/"@ + decimal(cid as nat);
    let ev = if has_text(comment) {
        seq![StagingOp::Event { event: comment_event(task, comment, bodies) }]
    } else {
        Seq::<StagingOp>::empty()
    };
    let n = comment.change_log@.len() as nat;
    let chg = changes_ops(task, comment, n);
    assert(no_events(users));
    lemma_no_events_distinct(users, ev);
    assert(event_ids_distinct(ev));
    lemma_distinct_append(users, ev);
    lemma_changes_distinct(task, comment, n);
    assert forall|i: int, j: int|
        #![trigger staged_event_id((users + ev)[i]), staged_event_id(chg[j])]
        0 <= i < (users + ev).len() && 0 <= j < chg.len() && staged_event_id((users + ev)[i]) is Some
            && staged_event_id(chg[j]) is Some implies staged_event_id((users + ev)[i]) != staged_event_id(chg[j]) by {
        if i < users.len() {
            assert((users + ev)[i] == users[i]);
            assert(!(users[i] is Event));
        } else {
            assert((users + ev)[i] == ev[i - users.len()]);
            assert(staged_event_id(ev[i - users.len()]) == Some(text_id));
            let k = choose|k: nat| k < n && staged_event_id(chg[j]) == Some(#[trigger] change_event_id(task, comment, k));
            lemma_comment_not_change(task, cid as nat, cid as nat, k);
        }
    }
    lemma_distinct_append(users + ev, chg);
    let s = users + ev + chg;
    assert(comment_ops(task, comment, bodies) == s);
    assert forall|i: int|
        #![trigger staged_event_id(s[i])]
        0 <= i < s.len() && staged_event_id(s[i]) is Some implies comment_owns(task, cid, staged_event_id(s[i]).unwrap()) by {
        let h = users.len() + ev.len();
        if i < users.len() {
            assert(s[i] == users[i]);
            assert(!(users[i] is Event));
        } else if i < h {
            assert(s[i] == ev[i - users.len()]);
            assert(staged_event_id(s[i]).unwrap() == text_id);
        } else {
            assert(s[i] == chg[i - h]);
            let k = choose|k: nat| k < n && staged_event_id(chg[i - h]) == Some(#[trigger] change_event_id(task, comment, k));
            assert(staged_event_id(s[i]).unwrap() == task + "/change/"@ + decimal(cid as nat) + "/"@ + decimal(k));
        }
    }
}

/// Whether every event among `ops` has an id that one of `comments` owns on `task`.
pub open spec fn ids_owned_by_some(ops: Seq<StagingOp>, task: Seq<char>, comments: Seq<Comment>) -> bool {
    forall|i: int|
        #![trigger staged_event_id(ops[i])]
        0 <= i < ops.len() && staged_event_id(ops[i]) is Some ==> exists|c: int|
            0 <= c < comments.len() && #[trigger] comment_owns(task, comments[c].id, staged_event_id(ops[i]).unwrap())
}

/// The events of a task's comments have distinct ids when the comments do.
proof fn lemma_comments_distinct(task: Seq<char>, comments: Seq<Comment>, bodies: bool)
    requires
        comment_ids_distinct(comments),
    ensures
        event_ids_distinct(comments_ops(task, comments, bodies)),
        ids_owned_by_some(comments_ops(task, comments, bodies), task, comments),
    decreases comments.len(),
{
    if comments.len() > 0 {
        let front = comments.drop_last();
        let last = comments.last();
        assert(comment_ids_distinct(front)) by {
            assert forall|i: int, j: int| 0 <= i < j < front.len() implies #[trigger] front[i].id != #[trigger] front[j].id by {
                assert(front[i] == comments[i] && front[j] == comments[j]);
            }
        }
        lemma_comments_distinct(task, front, bodies);
        lemma_comment_distinct(task, last, bodies);
        let a = comments_ops(task, front, bodies);
        let b = comment_ops(task, last, bodies);
        assert forall|i: int, j: int|
            #![trigger staged_event_id(a[i]), staged_event_id(b[j])]
            0 <= i < a.len() && 0 <= j < b.len() && staged_event_id(a[i]) is Some
                && staged_event_id(b[j]) is Some implies staged_event_id(a[i]) != staged_event_id(b[j]) by {
            let id = staged_event_id(a[i]).unwrap();
            let c = choose|c: int| 0 <= c < front.len() && #[trigger] comment_owns(task, front[c].id, id);
            if staged_event_id(b[j]) == staged_event_id(a[i]) {
                lemma_owner_unique(task, front[c].id, last.id, id);
                assert(comments[c] == front[c]);
                assert(comments[c].id != comments[comments.len() - 1].id);
            }
        }
        lemma_distinct_append(a, b);
        let s = a + b;
        assert forall|i: int|
            #![trigger staged_event_id(s[i])]
            0 <= i < s.len() && staged_event_id(s[i]) is Some implies exists|c: int|
                0 <= c < comments.len() && #[trigger] comment_owns(task, comments[c].id, staged_event_id(s[i]).unwrap()) by {
            if i < a.len() {
                assert(s[i] == a[i]);
                let id = staged_event_id(a[i]).unwrap();
                let c = choose|c: int| 0 <= c < front.len() && #[trigger] comment_owns(task, front[c].id, id);
                assert(comments[c] == front[c]);
            } else {
                assert(s[i] == b[i - a.len()]);
                assert(comment_owns(task, comments[comments.len() - 1].id, staged_event_id(s[i]).unwrap()));
            }
        }
    }
}

/// No two events staged for an issue share an id, provided the comments of
/// the issue carry pairwise different ids: the `task_created` event, each
/// `comment_added` event and each change event get ids of their own.
pub proof fn law_issue_event_ids_are_unique(
    project: Project,
    issue: Issue,
    comments: Seq<Comment>,
    keys: Map<u64, Seq<char>>,
    bodies: bool,
)
    requires
        comment_ids_distinct(comments),
    ensures
        event_ids_distinct(issue_ops(project, issue, comments, keys, bodies)),
{
    let task = issue.issue_key@;
    lemma_issue_head_no_events(project, issue, comments, keys);
    let p0 = task_ops(project, issue);
    let p1 = parent_ops(issue, keys);
    let p2 = tags_ops(task, "milestone:"@, "milestone"@, "assigned to"@, issue.milestone@);
    let p3 = tags_ops(task, "category:"@, "category"@, "categorized as"@, issue.category@);
    let p4 = user_ops(issue.created_user);
    let p5 = seq![StagingOp::Event { event: created_event(project, issue) }];
    let p6 = initial_ops(issue, comments);
    let p7 = comments_ops(task, comments, bodies);
    lemma_no_events_append(p0, p1);
    lemma_no_events_append(p0 + p1, p2);
    lemma_no_events_append(p0 + p1 + p2, p3);
    lemma_no_events_append(p0 + p1 + p2 + p3, p4);
    let head = p0 + p1 + p2 + p3 + p4;
    lemma_no_events_distinct(head, p5);
    assert(event_ids_distinct(p5));
    lemma_distinct_append(head, p5);
    lemma_no_events_distinct(p6, head + p5);
    lemma_distinct_append(head + p5, p6);
    let front = head + p5 + p6;
    let created = task + "/created"@;
    assert forall|i: int| #![trigger staged_event_id(front[i])]
        0 <= i < front.len() && staged_event_id(front[i]) is Some implies staged_event_id(front[i]) == Some(created) by {
        let h = head.len() as int;
        if i < h {
            assert(front[i] == head[i]);
            assert(!(head[i] is Event));
        } else if i == h {
            assert(front[i] == p5[0]);
        } else {
            assert(front[i] == p6[i - h - 1]);
            assert(!(p6[i - h - 1] is Event));
        }
    }
    lemma_comments_distinct(task, comments, bodies);
    assert forall|i: int, j: int|
        #![trigger staged_event_id(front[i]), staged_event_id(p7[j])]
        0 <= i < front.len() && 0 <= j < p7.len() && staged_event_id(front[i]) is Some
            && staged_event_id(p7[j]) is Some implies staged_event_id(front[i]) != staged_event_id(p7[j]) by {
        let id = staged_event_id(p7[j]).unwrap();
        let c = choose|c: int| 0 <= c < comments.len() && #[trigger] comment_owns(task, comments[c].id, id);
        lemma_created_not_owned(task, comments[c].id);
    }
    lemma_distinct_append(front, p7);
    assert(issue_ops(project, issue, comments, keys, bodies) =~= front + p7);
}

/// Whether every event among `ops` belongs, by the part of its id before
/// the first `/`, to the key of one of the issues of `pairs`.
pub open spec fn ids_keyed_by_some(ops: Seq<StagingOp>, pairs: Seq<(Issue, Vec<Comment>)>) -> bool {
    forall|i: int|
        #![trigger staged_event_id(ops[i])]
        0 <= i < ops.len() && staged_event_id(ops[i]) is Some ==> exists|c: int|
            0 <= c < pairs.len() && before_first_slash(staged_event_id(ops[i]).unwrap()) == (#[trigger] pairs[c]).0.issue_key@
}

/// Whether the issues of `pairs` have pairwise different keys without `/`,
/// and the comments of each issue pairwise different ids.
pub open spec fn pairs_well_keyed(pairs: Seq<(Issue, Vec<Comment>)>) -> bool {
    &&& forall|i: int| 0 <= i < pairs.len() ==> no_slash((#[trigger] pairs[i]).0.issue_key@)
    &&& forall|i: int, j: int| #![trigger pairs[i], pairs[j]] 0 <= i < j < pairs.len() ==> pairs[i].0.issue_key@ != pairs[j].0.issue_key@
    &&& forall|i: int| 0 <= i < pairs.len() ==> comment_ids_distinct((#[trigger] pairs[i]).1@)
}

proof fn lemma_pairs_distinct(project: Project, pairs: Seq<(Issue, Vec<Comment>)>, key_of: Map<u64, Seq<char>>)
    requires
        pairs_well_keyed(pairs),
    ensures
        event_ids_distinct(pairs_ops(project, pairs, key_of)),
        ids_keyed_by_some(pairs_ops(project, pairs, key_of), pairs),
    decreases pairs.len(),
{
    if pairs.len() > 0 {
        let front = pairs.drop_last();
        let last = pairs.last();
        let n = pairs.len() - 1;
        assert(pairs_well_keyed(front)) by {
            assert forall|i: int| 0 <= i < front.len() implies no_slash((#[trigger] front[i]).0.issue_key@) by {
                assert(front[i] == pairs[i]);
            }
            assert forall|i: int, j: int| #![trigger front[i], front[j]] 0 <= i < j < front.len() implies front[i].0.issue_key@ != front[j].0.issue_key@ by {
                assert(front[i] == pairs[i] && front[j] == pairs[j]);
            }
            assert forall|i: int| 0 <= i < front.len() implies comment_ids_distinct((#[trigger] front[i]).1@) by {
                assert(front[i] == pairs[i]);
            }
        }
        lemma_pairs_distinct(project, front, key_of);
        assert(pairs[n] == last);
        assert(no_slash(pairs[n].0.issue_key@));
        assert(comment_ids_distinct(pairs[n].1@));
        let a = pairs_ops(project, front, key_of);
        let b = issue_ops(project, last.0, last.1@, key_of, false);
        law_issue_event_ids_are_unique(project, last.0, last.1@, key_of, false);
        law_events_belong_to_their_issue(project, last.0, last.1@, key_of, false);
        let key = last.0.issue_key@;
        assert forall|j: int| #![trigger staged_event_id(b[j])]
            0 <= j < b.len() && staged_event_id(b[j]) is Some implies before_first_slash(staged_event_id(b[j]).unwrap()) == key by {
            assert(b[j] is Event);
        }
        assert forall|i: int, j: int|
            #![trigger staged_event_id(a[i]), staged_event_id(b[j])]
            0 <= i < a.len() && 0 <= j < b.len() && staged_event_id(a[i]) is Some
                && staged_event_id(b[j]) is Some implies staged_event_id(a[i]) != staged_event_id(b[j]) by {
            let c = choose|c: int| 0 <= c < front.len() && before_first_slash(staged_event_id(a[i]).unwrap()) == (#[trigger] front[c]).0.issue_key@;
            assert(front[c] == pairs[c]);
            assert(pairs[c].0.issue_key@ != pairs[n].0.issue_key@);
        }
        lemma_distinct_append(a, b);
        let s = a + b;
        assert forall|i: int|
            #![trigger staged_event_id(s[i])]
            0 <= i < s.len() && staged_event_id(s[i]) is Some implies exists|c: int|
                0 <= c < pairs.len() && before_first_slash(staged_event_id(s[i]).unwrap()) == (#[trigger] pairs[c]).0.issue_key@ by {
            if i < a.len() {
                assert(s[i] == a[i]);
                let c = choose|c: int| 0 <= c < front.len() && before_first_slash(staged_event_id(a[i]).unwrap()) == (#[trigger] front[c]).0.issue_key@;
                assert(front[c] == pairs[c]);
            } else {
                assert(s[i] == b[i - a.len()]);
                assert(before_first_slash(staged_event_id(b[i - a.len()]).unwrap()) == pairs[n].0.issue_key@);
            }
        }
    }
}

/// No two events staged for a project share an id, provided the issue keys
/// are pairwise different and hold no `/`, and the comments of each issue
/// carry pairwise different ids: the staged log passes the duplicate-id check.
pub proof fn law_event_ids_are_unique(project: Project, pairs: Seq<(Issue, Vec<Comment>)>)
    requires
        pairs_well_keyed(pairs),
    ensures
        event_ids_distinct(project_all_ops(project, pairs)),
{
    let keys = crate::mapper::key_index(crate::mapper::issues_of(pairs));
    lemma_pairs_distinct(project, pairs, keys);
    let head = project_ops(project);
    assert(no_events(head));
    lemma_no_events_distinct(head, pairs_ops(project, pairs, keys));
    lemma_distinct_append(head, pairs_ops(project, pairs, keys));
}

} // verus!
