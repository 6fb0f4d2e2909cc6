use chrono::DateTime;
use ocel::AttrValue;
use ocel_etl_backlog::mapper::map_project;
use ocel_etl_backlog::models::{ChangeLogEntry, Comment, Issue, Named, Project, Timestamp, User};

fn at(text: &str) -> Timestamp {
    let dt = DateTime::parse_from_rfc3339(text).unwrap();
    Timestamp::new(dt.timestamp(), dt.timestamp_subsec_nanos()).unwrap()
}

fn user(id: u64, name: &str) -> User {
    User { id, name: name.to_owned() }
}

fn named(id: u64, name: &str) -> Named {
    Named { id, name: name.to_owned() }
}

fn change(field: &str, new_value: Option<&str>, original_value: Option<&str>) -> ChangeLogEntry {
    ChangeLogEntry {
        field: field.to_owned(),
        new_value: new_value.map(str::to_owned),
        original_value: original_value.map(str::to_owned),
    }
}

fn project() -> Project {
    Project { id: 1, project_key: "DEMO".into(), name: "Demo Project".into() }
}

/// The single-issue record: DEMO-1 with an assignee, a milestone, a category and a due date.
fn issue() -> Issue {
    Issue {
        id: 101,
        issue_key: "DEMO-1".into(),
        summary: "Set up the CI pipeline".into(),
        issue_type: named(2, "Task"),
        status: named(1, "Open"),
        priority: named(3, "Normal"),
        assignee: Some(user(11, "Alice")),
        category: vec![named(7, "infra")],
        milestone: vec![named(5, "v1.0")],
        parent_issue_id: None,
        created_user: user(12, "Bob"),
        created: at("2026-01-05T09:00:00Z"),
        updated: at("2026-01-06T10:00:00Z"),
        due_date: Some(at("2026-01-31T00:00:00Z")),
    }
}

/// A plain comment, then a pure change record (status and assignee).
fn comments() -> Vec<Comment> {
    vec![
        Comment {
            id: 501,
            content: Some("Looks good, starting on this now.".into()),
            created_user: user(11, "Alice"),
            created: at("2026-01-06T09:15:00Z"),
            change_log: vec![],
        },
        Comment {
            id: 502,
            content: None,
            created_user: user(11, "Alice"),
            created: at("2026-01-06T10:00:00Z"),
            change_log: vec![change("status", Some("In Progress"), Some("Open")), change("assigner", Some("Alice"), None)],
        },
    ]
}

#[test]
fn maps_fixture_to_valid_ocel() {
    let ocel = map_project(&project(), &[(issue(), comments())]).into_ocel().unwrap();
    assert_eq!(ocel.validate(), Ok(()));

    let mut types: Vec<&str> = ocel.events.iter().map(|e| e.event_type.as_str()).collect();
    types.sort_unstable();
    assert_eq!(types, vec!["assignee_changed", "comment_added", "status_changed", "task_created"]);

    let mut object_types: Vec<&str> = ocel.object_types.iter().map(|t| t.name.as_str()).collect();
    object_types.sort_unstable();
    assert_eq!(object_types, vec!["category", "milestone", "project", "task", "user"]);
}

/// The task's dynamic status starts at the reconstructed initial value and
/// changes at the changeLog timestamp.
#[test]
fn reconstructs_dynamic_status() {
    let ocel = map_project(&project(), &[(issue(), comments())]).into_ocel().unwrap();
    let task = ocel.objects.iter().find(|o| o.id == "DEMO-1").unwrap();

    let at_creation = DateTime::parse_from_rfc3339("2026-01-05T09:00:00Z").unwrap().to_utc();
    let after_change = DateTime::parse_from_rfc3339("2026-01-07T00:00:00Z").unwrap().to_utc();
    assert_eq!(task.attribute_at("status", at_creation), Some(&AttrValue::String("Open".into())));
    assert_eq!(task.attribute_at("status", after_change), Some(&AttrValue::String("In Progress".into())));
}

/// E2O qualifiers follow the mapping design; provenance rides on change events.
#[test]
fn qualifiers_and_provenance() {
    let ocel = map_project(&project(), &[(issue(), comments())]).into_ocel().unwrap();

    let created = ocel.events.iter().find(|e| e.id == "DEMO-1/created").unwrap();
    let quals: Vec<&str> = created.relationships.iter().map(|r| r.qualifier.as_str()).collect();
    assert_eq!(quals, vec!["created task", "creator", "belongs to project"]);

    let change = ocel.events.iter().find(|e| e.event_type == "status_changed").unwrap();
    assert!(change
        .attributes
        .iter()
        .any(|a| a.name == "_source" && a.value == AttrValue::String("backlog-changelog".into())));
    assert!(change
        .attributes
        .iter()
        .any(|a| a.name == "new_value" && a.value == AttrValue::String("In Progress".into())));
}

/// O2O: project membership, milestone, and category links exist.
#[test]
fn o2o_links() {
    let ocel = map_project(&project(), &[(issue(), comments())]).into_ocel().unwrap();
    assert!(ocel.o2o().any(|r| r.source_id == "DEMO-1" && r.target_id == "DEMO" && r.qualifier == "belongs to"));
    assert!(ocel.o2o().any(|r| r.source_id == "DEMO-1" && r.qualifier == "assigned to"));
    assert!(ocel.o2o().any(|r| r.source_id == "DEMO-1" && r.qualifier == "categorized as"));
}
