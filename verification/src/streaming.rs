//! Mapping issue by issue against mapping in one call, and what the
//! mapping reports.

use vstd::prelude::*;

use crate::counts::count_of;
use crate::incremental::{lemma_apply_events, lemma_op_events_keyed, op_events};
use crate::laws::{law_events_belong_to_their_issue, law_skipped_fields_are_counted, occurrences};
use crate::mapper::{
    all_entries, change_event_id, change_ops, changes_ops, comment_event, comment_ops, comments_ops, count_skipped,
    has_text, issue_ops, pairs_entries, pairs_ops, project_all_ops, project_ops, projects_ops, spec_change_kind,
    ProjectIssues,
};
use crate::models::{ChangeLogEntry, Comment, Issue, Project};
use crate::staging::{apply_ops, empty_view, lemma_apply_ops_append, StagingView};
use crate::text::{before_first_slash, no_slash};

verus! {

/// A log after registering `project` and then mapping each issue of `pairs`
/// in turn, as a `ProjectMapper` does when fed one issue at a time.
pub open spec fn streamed(
    v: StagingView,
    project: Project,
    pairs: Seq<(Issue, Vec<Comment>)>,
    keys: Map<u64, Seq<char>>,
) -> StagingView
    decreases pairs.len(),
{
    if pairs.len() == 0 {
        apply_ops(v, project_ops(project))
    } else {
        apply_ops(streamed(v, project, pairs.drop_last(), keys), issue_ops(project, pairs.last().0, pairs.last().1@, keys, false))
    }
}

proof fn lemma_streamed(v: StagingView, project: Project, pairs: Seq<(Issue, Vec<Comment>)>, keys: Map<u64, Seq<char>>)
    ensures
        streamed(v, project, pairs, keys) == apply_ops(v, project_ops(project) + pairs_ops(project, pairs, keys)),
    decreases pairs.len(),
{
    if pairs.len() == 0 {
        assert(project_ops(project) + pairs_ops(project, pairs, keys) =~= project_ops(project));
    } else {
        lemma_streamed(v, project, pairs.drop_last(), keys);
        let head = project_ops(project) + pairs_ops(project, pairs.drop_last(), keys);
        let last = issue_ops(project, pairs.last().0, pairs.last().1@, keys, false);
        lemma_apply_ops_append(v, head, last);
        assert(head + last =~= project_ops(project) + pairs_ops(project, pairs, keys));
    }
}

/// Streaming issue by issue stages exactly what mapping the whole project in
/// one call stages: the project object, then every issue in order. With the
/// key index of the issue list and an empty log this is `map_project`'s log.
pub proof fn law_streaming_matches_batch(
    v: StagingView,
    project: Project,
    pairs: Seq<(Issue, Vec<Comment>)>,
    keys: Map<u64, Seq<char>>,
)
    ensures
        streamed(v, project, pairs, keys) == apply_ops(v, project_ops(project) + pairs_ops(project, pairs, keys)),
        streamed(empty_view(), project, pairs, crate::mapper::key_index(crate::mapper::issues_of(pairs))) == apply_ops(
            empty_view(),
            project_all_ops(project, pairs),
        ),
{
    lemma_streamed(v, project, pairs, keys);
    lemma_streamed(empty_view(), project, pairs, crate::mapper::key_index(crate::mapper::issues_of(pairs)));
}

/// The skipped-field counts after mapping each issue of `pairs` in turn.
pub open spec fn skipped_after(pairs: Seq<(Issue, Vec<Comment>)>) -> Map<Seq<char>, nat>
    decreases pairs.len(),
{
    if pairs.len() == 0 {
        Map::empty()
    } else {
        count_skipped(skipped_after(pairs.drop_last()), all_entries(pairs.last().1@))
    }
}

proof fn lemma_count_skipped_keys(counts: Map<Seq<char>, nat>, entries: Seq<ChangeLogEntry>, field: Seq<char>)
    ensures
        count_skipped(counts, entries).contains_key(field) <==> counts.contains_key(field) || (spec_change_kind(field)
            is None && occurrences(entries, field) > 0),
    decreases entries.len(),
{
    if entries.len() > 0 {
        lemma_count_skipped_keys(counts, entries.drop_last(), field);
    }
}

proof fn lemma_skipped_after(pairs: Seq<(Issue, Vec<Comment>)>)
    ensures
        skipped_after(pairs) == count_skipped(Map::empty(), pairs_entries(pairs)),
    decreases pairs.len(),
{
    if pairs.len() > 0 {
        lemma_skipped_after(pairs.drop_last());
        crate::mapper::lemma_count_skipped_append(
            Map::empty(),
            pairs_entries(pairs.drop_last()),
            all_entries(pairs.last().1@),
        );
    }
}

/// What a mapper fed issue by issue reports as skipped: exactly the
/// changeLog fields outside the whitelist that occur in the comments mapped
/// so far, each with its number of occurrences, and no other field (none
/// before any issue is mapped).
pub proof fn law_skipped_fields_report(pairs: Seq<(Issue, Vec<Comment>)>, field: Seq<char>)
    ensures
        skipped_after(pairs) == count_skipped(Map::empty(), pairs_entries(pairs)),
        skipped_after(pairs).contains_key(field) <==> spec_change_kind(field) is None && occurrences(
            pairs_entries(pairs),
            field,
        ) > 0,
        count_of(skipped_after(pairs), field) == if spec_change_kind(field) is None {
            occurrences(pairs_entries(pairs), field)
        } else {
            0
        },
        pairs.len() == 0 ==> skipped_after(pairs) == Map::<Seq<char>, nat>::empty(),
{
    lemma_skipped_after(pairs);
    lemma_count_skipped_keys(Map::empty(), pairs_entries(pairs), field);
    law_skipped_fields_are_counted(Map::empty(), pairs_entries(pairs), field);
}

/// A log after mapping each project of `projects` into it in turn.
pub open spec fn projects_in_turn(v: StagingView, projects: Seq<ProjectIssues>) -> StagingView
    decreases projects.len(),
{
    if projects.len() == 0 {
        v
    } else {
        apply_ops(projects_in_turn(v, projects.drop_last()), project_all_ops(projects.last().0, projects.last().1@))
    }
}

/// Mapping several projects at once is mapping each into the log in turn:
/// one project gives that project's log, none gives the empty log.
pub proof fn law_projects_map_in_turn(v: StagingView, projects: Seq<ProjectIssues>)
    ensures
        projects_in_turn(v, projects) == apply_ops(v, projects_ops(projects)),
        projects.len() == 1 ==> apply_ops(empty_view(), projects_ops(projects)) == apply_ops(
            empty_view(),
            project_all_ops(projects[0].0, projects[0].1@),
        ),
        projects.len() == 0 ==> apply_ops(empty_view(), projects_ops(projects)) == empty_view(),
    decreases projects.len(),
{
    if projects.len() > 0 {
        law_projects_map_in_turn(v, projects.drop_last());
        lemma_apply_ops_append(v, projects_ops(projects.drop_last()), project_all_ops(projects.last().0, projects.last().1@));
    }
    if projects.len() == 1 {
        assert(projects.drop_last().len() == 0);
        assert(projects_ops(projects) =~= project_all_ops(projects[0].0, projects[0].1@));
    }
}

/// Every event that mapping an issue adds to a log has an id under the
/// issue's key (for a key without `/`), so pruning by key finds it.
pub proof fn law_mapped_events_carry_the_key(
    v: StagingView,
    project: Project,
    issue: Issue,
    comments: Seq<Comment>,
    keys: Map<u64, Seq<char>>,
    bodies: bool,
)
    requires
        no_slash(issue.issue_key@),
    ensures
        ({
            let after = apply_ops(v, issue_ops(project, issue, comments, keys, bodies));
            forall|i: int| v.events.len() <= i < after.events.len() ==> before_first_slash(#[trigger] after.events[i].id)
                == issue.issue_key@
        }),
{
    let ops = issue_ops(project, issue, comments, keys, bodies);
    let after = apply_ops(v, ops);
    lemma_apply_events(v, ops);
    law_events_belong_to_their_issue(project, issue, comments, keys, bodies);
    assert forall|i: int| v.events.len() <= i < after.events.len() implies before_first_slash(#[trigger] after.events[i].id)
        == issue.issue_key@ by {
        let e = after.events[i];
        assert(op_events(ops)[i - v.events.len()] == e);
        lemma_op_events_keyed(ops, issue.issue_key@, e);
    }
}

/// Whether two comment lists differ at most in comment text, each comment
/// having text in one exactly when it has text in the other.
pub open spec fn same_but_text(a: Seq<Comment>, b: Seq<Comment>) -> bool {
    &&& a.len() == b.len()
    &&& forall|i: int|
        0 <= i < a.len() ==> {
            &&& (#[trigger] a[i]).id == b[i].id
            &&& a[i].created_user == b[i].created_user
            &&& a[i].created == b[i].created
            &&& a[i].change_log@ == b[i].change_log@
            &&& has_text(a[i]) == has_text(b[i])
        }
}

proof fn lemma_changes_same(task: Seq<char>, a: Comment, b: Comment, n: nat)
    requires
        a.id == b.id,
        a.created_user == b.created_user,
        a.created == b.created,
        a.change_log@ == b.change_log@,
    ensures
        changes_ops(task, a, n) == changes_ops(task, b, n),
    decreases n,
{
    if n > 0 {
        lemma_changes_same(task, a, b, (n - 1) as nat);
        assert(change_event_id(task, a, (n - 1) as nat) == change_event_id(task, b, (n - 1) as nat));
        assert(change_ops(task, a, (n - 1) as nat, a.change_log@[n - 1]) == change_ops(task, b, (n - 1) as nat, b.change_log@[n - 1]));
    }
}

proof fn lemma_comments_same(task: Seq<char>, a: Seq<Comment>, b: Seq<Comment>)
    requires
        same_but_text(a, b),
    ensures
        comments_ops(task, a, false) == comments_ops(task, b, false),
        all_entries(a) == all_entries(b),
    decreases a.len(),
{
    if a.len() > 0 {
        let n = a.len() - 1;
        assert(same_but_text(a.drop_last(), b.drop_last())) by {
            assert forall|i: int| 0 <= i < a.drop_last().len() implies {
                &&& (#[trigger] a.drop_last()[i]).id == b.drop_last()[i].id
                &&& a.drop_last()[i].created_user == b.drop_last()[i].created_user
                &&& a.drop_last()[i].created == b.drop_last()[i].created
                &&& a.drop_last()[i].change_log@ == b.drop_last()[i].change_log@
                &&& has_text(a.drop_last()[i]) == has_text(b.drop_last()[i])
            } by {
                assert(a.drop_last()[i] == a[i] && b.drop_last()[i] == b[i]);
            }
        }
        lemma_comments_same(task, a.drop_last(), b.drop_last());
        let x = a[n];
        let y = b[n];
        assert(x.id == y.id && x.created_user == y.created_user && x.created == y.created && x.change_log@ == y.change_log@
            && has_text(x) == has_text(y));
        lemma_changes_same(task, x, y, x.change_log@.len() as nat);
        assert(comment_event(task, x, false) == comment_event(task, y, false));
        assert(comment_ops(task, x, false) == comment_ops(task, y, false));
    }
}

/// Comment text stays out of the log when comment bodies are off: two
/// comment lists that differ only in the text of comments (each comment
/// with text in one has text in the other) stage the same calls for an
/// issue and count the same skipped fields.
pub proof fn law_comment_text_stays_out(
    project: Project,
    issue: Issue,
    a: Seq<Comment>,
    b: Seq<Comment>,
    keys: Map<u64, Seq<char>>,
    counts: Map<Seq<char>, nat>,
)
    requires
        same_but_text(a, b),
    ensures
        issue_ops(project, issue, a, keys, false) == issue_ops(project, issue, b, keys, false),
        count_skipped(counts, all_entries(a)) == count_skipped(counts, all_entries(b)),
{
    lemma_comments_same(issue.issue_key@, a, b);
}

} // verus!
