use std::cell::RefCell;
use std::collections::VecDeque;

use chrono::DateTime;
use ocel_etl_backlog::client::{BacklogClient, ClientError, HttpGet, HttpResponse, Request, Step};
use ocel_etl_backlog::models::{Comment, Issue, Named, Timestamp, User};

/// Scripted transport: pops pre-loaded responses, records requested URLs.
struct FakeHttp {
    responses: RefCell<VecDeque<HttpResponse>>,
    urls: RefCell<Vec<String>>,
}

impl FakeHttp {
    fn new(responses: Vec<HttpResponse>) -> Self {
        Self { responses: RefCell::new(responses.into()), urls: RefCell::new(Vec::new()) }
    }
}

impl HttpGet for &FakeHttp {
    fn get(&self, url: &str) -> Result<HttpResponse, ClientError> {
        self.urls.borrow_mut().push(url.to_owned());
        self.responses
            .borrow_mut()
            .pop_front()
            .ok_or_else(|| ClientError::Transport("no scripted response left".into()))
    }
}

fn ok(body: String) -> HttpResponse {
    HttpResponse { status: 200, retry_after: None, body }
}

fn issue_json(id: u64) -> String {
    format!(
        r#"{{"id":{id},"issueKey":"DEMO-{id}",
            "summary":"issue {id}",
            "issueType":{{"id":2,"name":"Task"}},
            "status":{{"id":1,"name":"Open"}},
            "priority":{{"id":3,"name":"Normal"}},
            "assignee":null,"category":[],"milestone":[],"parentIssueId":null,
            "createdUser":{{"id":12,"name":"Bob"}},
            "created":"2026-01-05T09:00:00Z","dueDate":null}}"#
    )
}

fn page_of_issues(ids: std::ops::Range<u64>) -> String {
    let items: Vec<String> = ids.map(issue_json).collect();
    format!("[{}]", items.join(","))
}

/// Send a request until it settles (waits are skipped: the scripted delays are zero).
fn settle<H: HttpGet>(client: &BacklogClient<H>, mut request: Request) -> Result<String, ClientError> {
    loop {
        let response = client.send(&request)?;
        match request.on_response(response) {
            Step::Deliver(body) => return Ok(body),
            Step::Wait(_) => {}
            Step::Fail(err) => return Err(err),
        }
    }
}

/// The items of a JSON array body.
fn items(body: &str) -> Vec<serde_json::Value> {
    serde_json::from_str::<Vec<serde_json::Value>>(body).unwrap()
}

fn text(v: &serde_json::Value) -> String {
    v.as_str().unwrap().to_owned()
}

fn named(v: &serde_json::Value) -> Named {
    Named { id: v["id"].as_u64().unwrap(), name: text(&v["name"]) }
}

fn user(v: &serde_json::Value) -> User {
    User { id: v["id"].as_u64().unwrap(), name: text(&v["name"]) }
}

fn time(v: &serde_json::Value) -> Timestamp {
    let t = DateTime::parse_from_rfc3339(v.as_str().unwrap()).unwrap();
    Timestamp::new(t.timestamp(), t.timestamp_subsec_nanos()).unwrap()
}

/// An issue decoded from the fields these pages carry.
fn issue(v: &serde_json::Value) -> Issue {
    Issue {
        id: v["id"].as_u64().unwrap(),
        issue_key: text(&v["issueKey"]),
        summary: text(&v["summary"]),
        issue_type: named(&v["issueType"]),
        status: named(&v["status"]),
        priority: named(&v["priority"]),
        assignee: None,
        category: vec![],
        milestone: vec![],
        parent_issue_id: None,
        created_user: user(&v["createdUser"]),
        created: time(&v["created"]),
        updated: time(&v["created"]),
        due_date: None,
    }
}

/// A comment decoded from the fields these pages carry.
fn comment(v: &serde_json::Value) -> Comment {
    Comment {
        id: v["id"].as_u64().unwrap(),
        content: v["content"].as_str().map(str::to_owned),
        created_user: user(&v["createdUser"]),
        created: time(&v["created"]),
        change_log: vec![],
    }
}

fn all_issues<H: HttpGet>(client: &BacklogClient<H>, project_id: u64) -> Result<Vec<Issue>, ClientError> {
    let mut pages = client.all_issues(project_id);
    let mut issues = Vec::new();
    loop {
        let body = settle(client, client.issues_request(&pages))?;
        let page: Vec<Issue> = items(&body).iter().map(issue).collect();
        if !pages.take_page(&mut issues, page) {
            return Ok(issues);
        }
    }
}

fn all_comments<H: HttpGet>(client: &BacklogClient<H>, issue_id: u64) -> Result<Vec<Comment>, ClientError> {
    let mut pages = client.all_comments(issue_id);
    let mut comments = Vec::new();
    loop {
        let body = settle(client, client.comments_request(&pages))?;
        let page: Vec<Comment> = items(&body).iter().map(comment).collect();
        if !pages.take_page(&mut comments, page) {
            return Ok(comments);
        }
    }
}

/// Issue pagination: a full page (100) triggers the next offset; a short page stops.
#[test]
fn paginates_issues_by_offset() {
    let fake = FakeHttp::new(vec![ok(page_of_issues(0..100)), ok(page_of_issues(100..130))]);
    let client = BacklogClient::new(&fake, "https://example.backlog.com", "KEY");

    let issues = all_issues(&client, 7).unwrap();
    assert_eq!(issues.len(), 130);
    assert!(issues.iter().enumerate().all(|(i, issue)| issue.id == i as u64));

    let urls = fake.urls.borrow();
    assert!(urls[0].contains("offset=0"));
    assert!(urls[1].contains("offset=100"));
    assert!(urls[0].contains("projectId[]=7"));
    assert!(urls[0].starts_with("https://example.backlog.com/api/v2/issues?apiKey=KEY"));
}

/// Comment pagination advances the minId cursor.
#[test]
fn paginates_comments_by_min_id() {
    let full: Vec<String> = (1..=100)
        .map(|id| {
            format!(
                r#"{{"id":{id},"content":"c","changeLog":[],
                    "createdUser":{{"id":1,"name":"Alice"}},
                    "created":"2026-01-06T09:15:00Z"}}"#
            )
        })
        .collect();
    let fake = FakeHttp::new(vec![ok(format!("[{}]", full.join(","))), ok("[]".to_owned())]);
    let client = BacklogClient::new(&fake, "https://example.backlog.com", "KEY");

    let comments = all_comments(&client, 101).unwrap();
    assert_eq!(comments.len(), 100);
    assert_eq!(comments[99].id, 100);

    let urls = fake.urls.borrow();
    assert!(!urls[0].contains("minId"));
    assert!(urls[1].contains("minId=100"));
}

/// A 429 is retried after the advertised delay, then succeeds.
#[test]
fn retries_on_rate_limit() {
    let fake = FakeHttp::new(vec![
        HttpResponse { status: 429, retry_after: Some(0), body: String::new() },
        ok(page_of_issues(0..2)),
    ]);
    let client = BacklogClient::new(&fake, "https://example.backlog.com", "KEY");

    let issues = all_issues(&client, 7).unwrap();
    assert_eq!(issues.len(), 2);
    assert_eq!(fake.urls.borrow().len(), 2);
}

/// Non-200/429 statuses surface as errors with context.
#[test]
fn error_status_is_reported() {
    let fake = FakeHttp::new(vec![HttpResponse { status: 404, retry_after: None, body: String::new() }]);
    let client = BacklogClient::new(&fake, "https://example.backlog.com", "KEY");

    let err = settle(&client, client.project("MISSING")).unwrap_err();
    assert!(matches!(err, ClientError::Status { status: 404, .. }));
}
