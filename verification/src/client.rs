//! Backlog API v2 client: request URLs, pagination and rate-limit backoff.
//!
//! The HTTP layer sits behind [`HttpGet`], so every decision here is made on
//! plain values: which URL to fetch next, whether a response is delivered,
//! retried after a wait, or reported as an error, and when paging stops.
//! Waiting and decoding JSON are left to the caller that drives a
//! [`Request`] to completion.

use vstd::prelude::*;

use crate::models::{Comment, Issue};
use crate::text::{parse_u64, parsed_u64, decimal, decimal_string, trim_end_slashes, trim_trailing_slashes};

verus! {

/// Page size for list endpoints (the Backlog API maximum).
pub const PAGE: usize = 100;

/// Give up after this many consecutive rate-limit retries per request.
pub const MAX_RETRIES: u32 = 5;

/// What can go wrong talking to the API.
#[derive(Debug)]
pub enum ClientError {
    /// The transport failed.
    Transport(String),
    /// The API answered with an unexpected status.
    Status { status: u16, context: String },
    /// Still rate limited after the given number of retries.
    RateLimited(u32),
    /// The response body did not decode.
    Parse { context: String, message: String },
}

/// A minimal HTTP response for [`HttpGet`] implementations.
#[derive(Debug)]
pub struct HttpResponse {
    pub status: u16,
    /// Seconds to wait before retrying (from rate-limit headers), if present.
    pub retry_after: Option<u64>,
    pub body: String,
}

/// The transport abstraction: perform a GET against a fully-formed URL.
pub trait HttpGet {
    /// Whether `response` is an answer this transport may give to a GET of
    /// `url` (a transport may answer one URL differently from call to call).
    /// A transport that says nothing more admits every answer.
    closed spec fn answers(&self, url: Seq<char>, response: Result<HttpResponse, ClientError>) -> bool {
        true
    }

    /// GET `url`; the answer is one this transport gives for that URL.
    fn get(&self, url: &str) -> (response: Result<HttpResponse, ClientError>)
        ensures
            self.answers(url@, response),
    ;
}

/// Query parameters appended as `&key=value`, in order.
pub open spec fn query(params: Seq<(Seq<char>, Seq<char>)>) -> Seq<char>
    decreases params.len(),
{
    if params.len() == 0 {
        Seq::empty()
    } else {
        query(params.drop_last()) + "&"@ + params.last().0 + "="@ + params.last().1
    }
}

/// The URL of `path` on the API at `base`, authenticated with `api_key`, with `params`.
pub open spec fn url_text(
    base: Seq<char>,
    api_key: Seq<char>,
    path: Seq<char>,
    params: Seq<(Seq<char>, Seq<char>)>,
) -> Seq<char> {
    base + path + "?apiKey="@ + api_key + query(params)
}

/// The text of each side of string-slice pairs.
pub open spec fn param_texts(params: Seq<(&str, &str)>) -> Seq<(Seq<char>, Seq<char>)> {
    params.map_values(|p: (&str, &str)| (p.0@, p.1@))
}

/// Backlog API client over an [`HttpGet`] transport.
#[derive(Debug)]
pub struct BacklogClient<H> {
    http: H,
    base_url: String,
    api_key: String,
}

impl<H: HttpGet> BacklogClient<H> {
    /// The API base URL, without trailing `/`.
    pub closed spec fn base(&self) -> Seq<char> {
        self.base_url@
    }

    /// The API key.
    pub closed spec fn key(&self) -> Seq<char> {
        self.api_key@
    }

    /// The transport.
    pub closed spec fn transport(&self) -> H {
        self.http
    }

    /// Create a client over an arbitrary transport.
    pub fn new(http: H, base_url: &str, api_key: &str) -> (client: Self)
        ensures
            client.base() == trim_trailing_slashes(base_url@),
            client.key() == api_key@,
            client.transport() == http,
    {
        BacklogClient { http, base_url: trim_end_slashes(base_url), api_key: api_key.to_owned() }
    }

    /// The URL of `path` with the API key and `params`.
    pub fn url(&self, path: &str, params: &[(&str, &str)]) -> (url: String)
        ensures
            url@ == url_text(self.base(), self.key(), path@, param_texts(params@)),
    {
        let mut url = self.base_url.clone();
        url.append(path);
        url.append("?apiKey=");
        url.append(self.api_key.as_str());
        let ghost head = url@;
        let mut i: usize = 0;
        assert(params@.take(0) =~= Seq::<(&str, &str)>::empty());
        assert(param_texts(params@.take(0)) =~= Seq::<(Seq<char>, Seq<char>)>::empty());
        while i < params.len()
            invariant
                i <= params.len(),
                url@ == head + query(param_texts(params@.take(i as int))),
            decreases params.len() - i,
        {
            let (key, value) = params[i];
            url.append("&");
            url.append(key);
            url.append("=");
            url.append(value);
            proof {
                let next = param_texts(params@.take(i + 1));
                assert(next =~= param_texts(params@.take(i as int)).push((key@, value@)));
                assert(next.drop_last() =~= param_texts(params@.take(i as int)));
            }
            i = i + 1;
        }
        assert(params@.take(i as int) == params@);
        url
    }

    /// Perform one GET of `request` over the transport.
    pub fn send(&self, request: &Request) -> (response: Result<HttpResponse, ClientError>)
        ensures
            self.transport().answers(request.spec_url(), response),
    {
        self.http.get(request.url.as_str())
    }

    /// The request for project metadata by key or id.
    pub fn project(&self, project_id_or_key: &str) -> (request: Request)
        ensures
            request.spec_url() == url_text(self.base(), self.key(), "/api/v2/projects/"@ + project_id_or_key@, Seq::empty()),
            request.spec_context() == "project"@,
            request.spec_retries() == 0,
    {
        let mut path = "/api/v2/projects/".to_owned();
        path.append(project_id_or_key);
        let params: Vec<(&str, &str)> = Vec::new();
        let url = self.url(path.as_str(), params.as_slice());
        assert(param_texts(params@) =~= Seq::<(Seq<char>, Seq<char>)>::empty());
        Request { url, context: "project".to_owned(), retries: 0 }
    }

    /// Paging over every issue of a project (creation order), from the start.
    pub fn all_issues(&self, project_id: u64) -> (pages: IssuePages)
        ensures
            pages.project_id == project_id,
            pages.offset == 0,
    {
        IssuePages { project_id, offset: 0 }
    }

    /// Paging over every comment of an issue (oldest first), from the start.
    pub fn all_comments(&self, issue_id: u64) -> (pages: CommentPages)
        ensures
            pages.issue_id == issue_id,
            pages.min_id is None,
    {
        CommentPages { issue_id, min_id: None }
    }

    /// The request for the page of issues starting at `pages.offset`.
    pub fn issues_request(&self, pages: &IssuePages) -> (request: Request)
        ensures
            request.spec_url() == url_text(self.base(), self.key(), "/api/v2/issues"@, issues_params(*pages)),
            request.spec_context() == "issues"@,
            request.spec_retries() == 0,
    {
        let project_id = decimal_string(pages.project_id);
        let count = decimal_string(PAGE as u64);
        let offset = decimal_string(pages.offset as u64);
        let params: Vec<(&str, &str)> = vec![
            ("projectId[]", project_id.as_str()),
            ("count", count.as_str()),
            ("offset", offset.as_str()),
            ("sort", "created"),
            ("order", "asc"),
        ];
        assert(param_texts(params@) =~= issues_params(*pages));
        let url = self.url("/api/v2/issues", params.as_slice());
        Request { url, context: "issues".to_owned(), retries: 0 }
    }

    /// The request for the page of comments after `pages.min_id`.
    pub fn comments_request(&self, pages: &CommentPages) -> (request: Request)
        ensures
            request.spec_url() == url_text(self.base(), self.key(), comments_path(pages.issue_id), comments_params(*pages)),
            request.spec_context() == "comments"@,
            request.spec_retries() == 0,
    {
        let mut path = "/api/v2/issues/".to_owned();
        let issue_id = decimal_string(pages.issue_id);
        path.append(issue_id.as_str());
        path.append("/comments");
        let count = decimal_string(PAGE as u64);
        let mut params: Vec<(&str, &str)> = vec![("count", count.as_str()), ("order", "asc")];
        let min_id_value = match pages.min_id {
            Some(id) => Some(decimal_string(id)),
            None => None,
        };
        if let Some(v) = &min_id_value {
            params.push(("minId", v.as_str()));
        }
        proof {
            assert(param_texts(params@) =~= comments_params(*pages));
        }
        let url = self.url(path.as_str(), params.as_slice());
        Request { url, context: "comments".to_owned(), retries: 0 }
    }
}

/// A GET request with its rate-limit retry count.
#[derive(Debug)]
pub struct Request {
    url: String,
    context: String,
    retries: u32,
}

/// What to do after a response.
#[derive(Debug)]
pub enum Step {
    /// The request succeeded: decode this body.
    Deliver(String),
    /// Rate limited: wait this many seconds, then send the request again.
    Wait(u64),
    /// The request failed.
    Fail(ClientError),
}

/// The kind of decision taken on a response.
pub enum Decision {
    /// Deliver the body.
    Deliver,
    /// Wait this many seconds and send again.
    Wait(u64),
    /// Give up: rate limited too often.
    GiveUp,
    /// Reject: unexpected status.
    Reject(u16),
}

/// The decision on a response with `status` and `retry_after` to a request
/// retried `retries` times so far.
pub open spec fn decide(retries: u32, status: u16, retry_after: Option<u64>) -> Decision {
    if status == 200 {
        Decision::Deliver
    } else if status == 429 {
        if retries + 1 > MAX_RETRIES {
            Decision::GiveUp
        } else {
            Decision::Wait(
                match retry_after {
                    Some(s) => s,
                    None => 1,
                },
            )
        }
    } else {
        Decision::Reject(status)
    }
}

/// The retry count after a response with `status`.
pub open spec fn next_retries(retries: u32, status: u16) -> int {
    if status == 429 {
        retries + 1
    } else {
        retries as int
    }
}

/// The decision a step carries out.
pub open spec fn decision_of(step: Step) -> Decision {
    match step {
        Step::Deliver(_) => Decision::Deliver,
        Step::Wait(secs) => Decision::Wait(secs),
        Step::Fail(ClientError::RateLimited(_)) => Decision::GiveUp,
        Step::Fail(ClientError::Status { status, .. }) => Decision::Reject(status),
        Step::Fail(_) => Decision::Reject(0),
    }
}

/// The decisions on successive responses to one request, up to and
/// including the first that is not a wait (no further response is awaited
/// after it).
pub open spec fn drive(retries: u32, responses: Seq<(u16, Option<u64>)>) -> Seq<Decision>
    decreases responses.len(),
{
    if responses.len() == 0 {
        Seq::empty()
    } else {
        let d = decide(retries, responses[0].0, responses[0].1);
        if d is Wait {
            seq![d] + drive(next_retries(retries, responses[0].0) as u32, responses.drop_first())
        } else {
            seq![d]
        }
    }
}

impl Request {
    /// The URL to fetch.
    pub closed spec fn spec_url(&self) -> Seq<char> {
        self.url@
    }

    /// What is being fetched (for error reports).
    pub closed spec fn spec_context(&self) -> Seq<char> {
        self.context@
    }

    /// Rate-limit retries so far.
    pub closed spec fn spec_retries(&self) -> u32 {
        self.retries
    }

    /// The URL to fetch.
    pub fn url(&self) -> (url: &str)
        ensures
            url@ == self.spec_url(),
    {
        self.url.as_str()
    }

    /// What is being fetched.
    pub fn context(&self) -> (context: &str)
        ensures
            context@ == self.spec_context(),
    {
        self.context.as_str()
    }

    /// Rate-limit retries so far.
    pub fn retries(&self) -> (retries: u32)
        ensures
            retries == self.spec_retries(),
    {
        self.retries
    }

    /// Decide on a response: a 200 delivers its body, a 429 waits the
    /// advertised delay (one second when none) and retries, up to
    /// [`MAX_RETRIES`] times, and any other status is an error.
    pub fn on_response(&mut self, response: HttpResponse) -> (step: Step)
        requires
            old(self).spec_retries() <= MAX_RETRIES,
        ensures
            decision_of(step) == decide(old(self).spec_retries(), response.status, response.retry_after),
            final(self).spec_retries() == next_retries(old(self).spec_retries(), response.status),
            final(self).spec_url() == old(self).spec_url(),
            final(self).spec_context() == old(self).spec_context(),
            response.status == 200 ==> step == Step::Deliver(response.body) && final(self).spec_retries() == old(self).spec_retries(),
            response.status == 429 ==> final(self).spec_retries() == old(self).spec_retries() + 1,
            response.status == 429 && old(self).spec_retries() < MAX_RETRIES ==> step == Step::Wait(
                match response.retry_after {
                    Some(s) => s,
                    None => 1,
                },
            ),
            response.status == 429 && old(self).spec_retries() == MAX_RETRIES ==> step == Step::Fail(ClientError::RateLimited(MAX_RETRIES)),
            response.status != 200 && response.status != 429 ==> final(self).spec_retries() == old(self).spec_retries()
                && (step matches Step::Fail(ClientError::Status { status, context })
                    && status == response.status && context@ == old(self).spec_context()),
    {
        if response.status == 200 {
            Step::Deliver(response.body)
        } else if response.status == 429 {
            self.retries = self.retries + 1;
            if self.retries > MAX_RETRIES {
                Step::Fail(ClientError::RateLimited(MAX_RETRIES))
            } else {
                Step::Wait(
                    match response.retry_after {
                        Some(s) => s,
                        None => 1,
                    },
                )
            }
        } else {
            Step::Fail(ClientError::Status { status: response.status, context: self.context.clone() })
        }
    }

    /// The error for a body that did not decode.
    pub fn parse_error(&self, message: String) -> (error: ClientError)
        ensures
            error matches ClientError::Parse { context, message: m } && context@ == self.spec_context() && m == message,
    {
        ClientError::Parse { context: self.context.clone(), message }
    }
}

/// Paging state over a project's issues: the offset of the next page.
#[derive(Debug)]
pub struct IssuePages {
    pub project_id: u64,
    pub offset: usize,
}

/// The query parameters of the issues page at `pages.offset`.
pub open spec fn issues_params(pages: IssuePages) -> Seq<(Seq<char>, Seq<char>)> {
    seq![
        ("projectId[]"@, decimal(pages.project_id as nat)),
        ("count"@, decimal(PAGE as nat)),
        ("offset"@, decimal(pages.offset as nat)),
        ("sort"@, "created"@),
        ("order"@, "asc"@),
    ]
}

impl IssuePages {
    /// Record a received page of `page_len` issues; returns whether another
    /// page follows (only a full page is followed by another).
    pub fn on_page(&mut self, page_len: usize) -> (more: bool)
        requires
            old(self).offset + page_len <= usize::MAX,
        ensures
            final(self).project_id == old(self).project_id,
            final(self).offset == old(self).offset + page_len,
            more == (page_len == PAGE),
    {
        self.offset = self.offset + page_len;
        page_len == PAGE
    }

    /// Add a received page to the issues fetched so far; returns whether
    /// another page follows. The issues end up as the pages joined in order,
    /// and the offset counts them.
    pub fn take_page(&mut self, issues: &mut Vec<Issue>, page: Vec<Issue>) -> (more: bool)
        requires
            old(self).offset + page@.len() <= usize::MAX,
        ensures
            final(issues)@ == old(issues)@ + page@,
            final(self).project_id == old(self).project_id,
            final(self).offset == old(self).offset + page@.len(),
            more == (page@.len() == PAGE),
    {
        let more = self.on_page(page.len());
        let mut page = page;
        issues.append(&mut page);
        more
    }
}

/// Paging state over an issue's comments: the id cursor of the next page.
#[derive(Debug)]
pub struct CommentPages {
    pub issue_id: u64,
    pub min_id: Option<u64>,
}

/// The path of an issue's comment list.
pub open spec fn comments_path(issue_id: u64) -> Seq<char> {
    "/api/v2/issues/"@ + decimal(issue_id as nat) + "/comments"@
}

/// The query parameters of the comments page after `pages.min_id`.
pub open spec fn comments_params(pages: CommentPages) -> Seq<(Seq<char>, Seq<char>)> {
    let head = seq![("count"@, decimal(PAGE as nat)), ("order"@, "asc"@)];
    match pages.min_id {
        Some(id) => head.push(("minId"@, decimal(id as nat))),
        None => head,
    }
}

impl CommentPages {
    /// Record a received page of `page_len` comments whose last comment has
    /// id `last_id`; returns whether another page follows (only a full page
    /// is followed by another). The cursor moves to the last comment.
    pub fn on_page(&mut self, page_len: usize, last_id: Option<u64>) -> (more: bool)
        ensures
            final(self).issue_id == old(self).issue_id,
            final(self).min_id == last_id,
            more == (page_len == PAGE),
    {
        self.min_id = last_id;
        page_len == PAGE
    }

    /// Add a received page to the comments fetched so far; returns whether
    /// another page follows. The comments end up as the pages joined in
    /// order, and the cursor moves to the id of the page's last comment
    /// (none for an empty page).
    pub fn take_page(&mut self, comments: &mut Vec<Comment>, page: Vec<Comment>) -> (more: bool)
        ensures
            final(comments)@ == old(comments)@ + page@,
            final(self).issue_id == old(self).issue_id,
            final(self).min_id == (if page@.len() == 0 { None } else { Some(page@.last().id) }),
            more == (page@.len() == PAGE),
    {
        let last_id = if page.len() == 0 { None } else { Some(page[page.len() - 1].id) };
        let more = self.on_page(page.len(), last_id);
        let mut page = page;
        comments.append(&mut page);
        more
    }
}

/// The seconds `retry_delay` waits for a header value `value` at time `now`.
pub open spec fn delay_secs(value: u64, now: u64) -> u64 {
    if value > now {
        (value - now) as u64
    } else if value < 60 {
        value
    } else {
        60
    }
}

/// The wait a rate-limited response asks for, from its headers: the
/// `Retry-After` value when present, else `X-RateLimit-Reset`, read as a
/// decimal number and turned into seconds by `retry_delay`; none when the
/// chosen header is absent or not a number.
pub fn rate_limit_wait(retry_after: Option<&[u8]>, reset: Option<&[u8]>, now: u64) -> (secs: Option<u64>)
    ensures
        secs == match (if retry_after is Some { retry_after } else { reset }) {
            Some(h) => match parsed_u64(h@) {
                Some(v) => Some(delay_secs(v, now)),
                None => None,
            },
            None => None,
        },
{
    let chosen = match retry_after {
        Some(h) => Some(h),
        None => reset,
    };
    match chosen {
        Some(h) => match parse_u64(h) {
            Some(v) => Some(retry_delay(v, now)),
            None => None,
        },
        None => None,
    }
}

/// Seconds to wait before a retry, from a rate-limit header value: a value
/// beyond `now` is an epoch timestamp (`X-RateLimit-Reset`) to wait for; any
/// other is a delay in seconds (`Retry-After`), capped at one minute.
pub fn retry_delay(value: u64, now: u64) -> (secs: u64)
    ensures
        secs == delay_secs(value, now),
        value > now ==> secs == value - now,
        value <= now ==> secs == if value < 60 { value } else { 60 },
{
    if value > now {
        value - now
    } else if value < 60 {
        value
    } else {
        60
    }
}


/// How many responses a request consumes before it is settled, from `retries` retries on.
proof fn lemma_drive_length(retries: u32, responses: Seq<(u16, Option<u64>)>)
    requires
        retries <= MAX_RETRIES,
    ensures
        drive(retries, responses).len() <= MAX_RETRIES + 1 - retries,
        forall|i: int| 0 <= i < drive(retries, responses).len() - 1 ==> #[trigger] drive(retries, responses)[i] is Wait,
    decreases responses.len(),
{
    if responses.len() > 0 {
        let d = decide(retries, responses[0].0, responses[0].1);
        if d is Wait {
            assert(responses[0].0 == 429);
            lemma_drive_length((retries + 1) as u32, responses.drop_first());
            let rest = drive((retries + 1) as u32, responses.drop_first());
            assert forall|i: int| 0 <= i < drive(retries, responses).len() - 1 implies #[trigger] drive(retries, responses)[i] is Wait by {
                if i > 0 {
                    assert(drive(retries, responses)[i] == rest[i - 1]);
                }
            }
        }
    }
}

/// A run of rate limits from `retries` retries on ends in giving up.
proof fn lemma_consecutive_limits(retries: u32, responses: Seq<(u16, Option<u64>)>)
    requires
        retries <= MAX_RETRIES,
        responses.len() >= MAX_RETRIES + 1 - retries,
        forall|i: int| 0 <= i <= MAX_RETRIES - retries ==> #[trigger] responses[i].0 == 429,
    ensures
        drive(retries, responses).len() == MAX_RETRIES + 1 - retries,
        drive(retries, responses)[MAX_RETRIES - retries] is GiveUp,
    decreases MAX_RETRIES - retries,
{
    assert(responses[0].0 == 429);
    if retries < MAX_RETRIES {
        let rest = responses.drop_first();
        assert forall|i: int| 0 <= i <= MAX_RETRIES - (retries + 1) implies #[trigger] rest[i].0 == 429 by {
            assert(rest[i] == responses[i + 1]);
        }
        lemma_consecutive_limits((retries + 1) as u32, rest);
    }
}

/// A request is sent at most `MAX_RETRIES + 1` times: from a fresh request,
/// every response but the last one seen is a rate limit answered by waiting,
/// and at most `MAX_RETRIES + 1` responses are seen; when that many rate
/// limits arrive in a row, the last is answered by giving up.
pub proof fn law_rate_limit_retries_are_bounded(responses: Seq<(u16, Option<u64>)>)
    ensures
        drive(0, responses).len() <= MAX_RETRIES + 1,
        forall|i: int| 0 <= i < drive(0, responses).len() - 1 ==> #[trigger] drive(0, responses)[i] is Wait,
        responses.len() >= MAX_RETRIES + 1 && (forall|i: int| 0 <= i <= MAX_RETRIES ==> #[trigger] responses[i].0 == 429)
            ==> drive(0, responses).len() == MAX_RETRIES + 1 && drive(0, responses)[MAX_RETRIES as int] is GiveUp,
{
    lemma_drive_length(0, responses);
    if responses.len() >= MAX_RETRIES + 1 && (forall|i: int| 0 <= i <= MAX_RETRIES ==> #[trigger] responses[i].0 == 429) {
        lemma_consecutive_limits(0, responses);
    }
}

/// The wait a rate-limit response asks for: its delay, one second when none.
pub open spec fn wait_of(retry_after: Option<u64>) -> u64 {
    match retry_after {
        Some(s) => s,
        None => 1,
    }
}

proof fn lemma_limits_then_answer(retries: u32, responses: Seq<(u16, Option<u64>)>, k: int)
    requires
        0 <= k,
        retries + k <= MAX_RETRIES,
        responses.len() == k + 1,
        forall|i: int| 0 <= i < k ==> #[trigger] responses[i].0 == 429,
        responses[k].0 != 429,
    ensures
        drive(retries, responses).len() == k + 1,
        forall|i: int| 0 <= i < k ==> #[trigger] drive(retries, responses)[i] == Decision::Wait(wait_of(responses[i].1)),
        drive(retries, responses)[k] == decide(0, responses[k].0, responses[k].1),
    decreases k,
{
    if k > 0 {
        let rest = responses.drop_first();
        assert forall|i: int| 0 <= i < k - 1 implies #[trigger] rest[i].0 == 429 by {
            assert(rest[i] == responses[i + 1]);
        }
        assert(responses[0].0 == 429);
        lemma_limits_then_answer((retries + 1) as u32, rest, k - 1);
        let d = drive(retries, responses);
        let tail = drive((retries + 1) as u32, rest);
        assert(d == seq![Decision::Wait(wait_of(responses[0].1))] + tail);
        assert forall|i: int| 0 <= i < k implies #[trigger] d[i] == Decision::Wait(wait_of(responses[i].1)) by {
            if i > 0 {
                assert(d[i] == tail[i - 1]);
                assert(rest[i - 1] == responses[i]);
            }
        }
        assert(d[k] == tail[k - 1]);
        assert(rest[k - 1] == responses[k]);
    }
}

/// Rate limits followed by an answer: after `k` rate limits in a row
/// (`k <= MAX_RETRIES`), each answered by waiting its delay (one second when
/// none is given), a response with another status is decided exactly as it
/// would be on its own, and nothing more is awaited: the request is sent
/// `k + 1` times.
pub proof fn law_rate_limits_then_answer(responses: Seq<(u16, Option<u64>)>, k: int)
    requires
        0 <= k <= MAX_RETRIES,
        responses.len() == k + 1,
        forall|i: int| 0 <= i < k ==> #[trigger] responses[i].0 == 429,
        responses[k].0 != 429,
    ensures
        drive(0, responses).len() == k + 1,
        forall|i: int| 0 <= i < k ==> #[trigger] drive(0, responses)[i] == Decision::Wait(wait_of(responses[i].1)),
        drive(0, responses)[k] == drive(0, seq![responses[k]])[0],
{
    lemma_limits_then_answer(0, responses, k);
}

/// The base URL keeps no trailing `/` and is a prefix of the given one.
pub proof fn law_base_url_trimmed(base_url: Seq<char>)
    ensures
        trim_trailing_slashes(base_url).len() == 0 || trim_trailing_slashes(base_url).last() != '/',
        trim_trailing_slashes(base_url).len() <= base_url.len(),
        trim_trailing_slashes(base_url) == base_url.take(trim_trailing_slashes(base_url).len() as int),
        trim_trailing_slashes(trim_trailing_slashes(base_url)) == trim_trailing_slashes(base_url),
    decreases base_url.len(),
{
    if base_url.len() > 0 && base_url.last() == '/' {
        law_base_url_trimmed(base_url.drop_last());
        let t = trim_trailing_slashes(base_url.drop_last());
        assert(base_url.drop_last().take(t.len() as int) =~= base_url.take(t.len() as int));
    } else {
        assert(base_url.take(base_url.len() as int) == base_url);
    }
}

} // verus!
