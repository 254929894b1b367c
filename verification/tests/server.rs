use llm_watch::http::{
    body_length, event_frame, is_busy, read_request, response_head, route, same_origin, stream_head, Refusal,
    Request, Route,
};
use llm_watch::model::{Link, RunRecord, Snapshot, SCHEMA_VERSION};
use llm_watch::prs::{parse, read_prs, PullRequest, PR_LIMIT};
use llm_watch::labels::read_labels;
use llm_watch::server::{
    build_state, first_state, handle_focus, handle_label, handle_pr, FocusRequest, HostView,
    LabelRequest, LabelStep, Poll, PrRequest, PrStep, Published, StateView,
};
use llm_watch::table::Table;

fn snapshot(host: &str, state: &str) -> Snapshot {
    Snapshot {
        schema_version: SCHEMA_VERSION,
        host: host.to_owned(),
        generated_at: "2026-08-07T00:00:00Z".to_owned(),
        runs: vec![RunRecord {
            state: state.to_owned(),
            ..RunRecord::default()
        }],
        links: vec![Link {
            id: "difit-1".to_owned(),
            kind: "difit".to_owned(),
            url: format!("https://{host}.example.dev"),
            ..Link::default()
        }],
        events: vec![],
    }
}

fn poll() -> Poll {
    Poll {
        snapshots: Table::new(),
        displayed: Table::new(),
        errors: Table::new(),
        labels: Table::new(),
        prs: Table::new(),
    }
}

#[test]
fn unreachable_hosts_keep_last_known_runs_and_are_marked_stale() {
    let hosts = vec!["dev-a".to_owned(), "dev-b".to_owned()];
    let mut poll = poll();
    poll.snapshots
        .insert("dev-a".to_owned(), snapshot("dev-a", "ready"));
    poll.displayed
        .insert("dev-a".to_owned(), snapshot("dev-a", "ready"));
    poll.displayed
        .insert("dev-b".to_owned(), snapshot("dev-b", "working"));
    poll.errors
        .insert("dev-b".to_owned(), "SSH timed out".to_owned());
    poll.labels
        .insert("dev-b".to_owned(), "payments train".to_owned());
    poll.prs.insert(
        "dev-b".to_owned(),
        vec![parse("canva/canva#7").unwrap()],
    );
    let state = build_state(&hosts, &poll);

    assert!(state.hosts[0].reachable && !state.hosts[0].stale);
    assert!(!state.hosts[1].reachable && state.hosts[1].stale);
    assert_eq!(state.hosts[1].error.as_deref(), Some("SSH timed out"));
    assert_eq!(state.hosts[1].runs[0].state, "working");
    // An unlabelled host reports an empty label, not a missing key.
    assert_eq!(state.hosts[0].label, "");
    assert_eq!(state.hosts[1].label, "payments train");
    // Links come only from a live poll: dev-b's cached tunnel may be dead.
    assert_eq!(state.hosts[0].links.len(), 1);
    assert!(state.hosts[1].links.is_empty());
    // Attached PRs are yours, so an offline box keeps showing them.
    assert!(state.hosts[0].prs.is_empty());
    assert_eq!(state.hosts[1].prs[0].number, 7);
}

#[test]
fn never_seen_hosts_report_no_runs() {
    let hosts = vec!["dev-new".to_owned()];
    let mut poll = poll();
    poll.errors
        .insert("dev-new".to_owned(), "connection refused".to_owned());
    let state = build_state(&hosts, &poll);
    assert!(!state.hosts[0].reachable);
    assert!(!state.hosts[0].stale);
    assert!(state.hosts[0].runs.is_empty());
    assert!(state.hosts[0].observed_at.is_none());
}

fn view(hosts: &[&str]) -> StateView {
    StateView {
        schema_version: SCHEMA_VERSION,
        generated_at: "2026-08-07T00:00:00Z".to_owned(),
        hosts: hosts
            .iter()
            .map(|host| HostView {
                host: (*host).to_owned(),
                label: String::new(),
                prs: Vec::new(),
                reachable: true,
                stale: false,
                error: None,
                observed_at: None,
                runs: Vec::new(),
                links: Vec::new(),
            })
            .collect(),
    }
}

#[test]
fn broadcast_wakes_waiters_with_the_new_payload() {
    let mut published = Published::new(view(&["dev-a"]));
    let version = published.version;
    assert_eq!(published.view.hosts[0].host, "dev-a");
    assert!(!published.moved_past(version));

    published.publish(view(&["dev-b"]));
    assert!(
        published.moved_past(version),
        "publish should wake the waiter"
    );
    assert_eq!(published.version, version + 1);
    assert_eq!(published.view.hosts[0].host, "dev-b");
}

#[test]
fn a_label_edit_republishes_immediately_and_rejects_unknown_hosts() {
    let mut published = Published::new(view(&["dev-a", "dev-b"]));
    let version = published.version;

    assert!(published.apply_label("dev-b", "render tree"));
    let next = published.version;
    assert_eq!(next, version + 1, "viewers are woken without a new poll");
    assert_eq!(published.view.hosts[1].label, "render tree");
    assert_eq!(published.view.hosts[0].label, "");

    // An unknown host must not mutate or bump anything.
    assert!(!published.apply_label("dev-nope", "x"));
    assert_eq!(published.version, next);
}

#[test]
fn a_pull_request_edit_republishes_and_is_bounded_per_host() {
    let mut published = Published::new(view(&["dev-a"]));
    let version = published.version;

    let pr = parse("https://github.com/canva/canva/pull/12").unwrap();
    assert!(published.apply_prs("dev-a", vec![pr.clone()]));
    let next = published.version;
    assert_eq!(next, version + 1, "viewers are woken without a new poll");
    assert!(published.view.hosts[0].prs[0]
        .url
        .contains("/canva/canva/pull/12"));

    assert!(!published.apply_prs("dev-nope", vec![pr.clone()]));
    assert_eq!(
        published.version, next,
        "an unknown host changes nothing"
    );

    assert!(published.accepts_pr("dev-a", &pr.url));
    let full = (1..=PR_LIMIT)
        .map(|number| parse(&format!("canva/canva#{number}")).unwrap())
        .collect::<Vec<_>>();
    published.apply_prs("dev-a", full);
    // A full card still accepts one it already carries: that add is a no-op.
    assert!(!published.accepts_pr("dev-a", &pr.url));
    assert!(published.accepts_pr("dev-a", "https://github.com/canva/canva/pull/1"));
}

#[test]
fn only_watched_hosts_can_be_focused() {
    let published = Published::new(view(&["dev-a"]));
    assert!(published.is_watched("dev-a"));
    assert!(!published.is_watched("dev-nope"));
}

fn post(host: Option<&str>, origin: Option<&str>) -> Request {
    Request {
        method: "POST".to_owned(),
        path: "/api/focus".to_owned(),
        host: host.map(str::to_owned),
        origin: origin.map(str::to_owned),
        length: 0,
    }
}

#[test]
fn cross_origin_posts_are_refused_but_scripts_still_work() {
    // The page itself.
    assert!(same_origin(&post(
        Some("127.0.0.1:8787"),
        Some("http://127.0.0.1:8787")
    )));
    // A page you happened to visit, which a browser always labels.
    assert!(!same_origin(&post(
        Some("127.0.0.1:8787"),
        Some("http://evil.test")
    )));
    // Same host, different port is still a different origin.
    assert!(!same_origin(&post(
        Some("127.0.0.1:8787"),
        Some("http://127.0.0.1:9999")
    )));
    // `null` (a sandboxed frame) has no authority to match.
    assert!(!same_origin(&post(Some("127.0.0.1:8787"), Some("null"))));
    // curl and scripts send no Origin at all.
    assert!(same_origin(&post(Some("127.0.0.1:8787"), None)));
}

#[test]
fn an_origin_without_a_host_is_refused() {
    let request = post(None, Some("http://127.0.0.1:8787"));
    assert!(!same_origin(&request));
    assert_eq!(route(&request), Route::Refused(Refusal::CrossOrigin));
    assert_eq!(route(&post(None, None)), Route::Focus);
}

fn request(method: &str, path: &str) -> Request {
    Request {
        method: method.to_owned(),
        path: path.to_owned(),
        host: None,
        origin: None,
        length: 0,
    }
}

#[test]
fn requests_are_routed() {
    for (method, path, expected) in [
        ("GET", "/", Route::Index),
        ("GET", "/index.html?x", Route::Index),
        ("HEAD", "/api/state", Route::State),
        ("GET", "/api/stream?y=1", Route::Stream),
        ("GET", "/api/label", Route::Refused(Refusal::NotFound)),
        ("POST", "/api/label", Route::Label),
        ("POST", "/api/pr?x=?", Route::PullRequest),
        ("POST", "/api/focus", Route::Focus),
        ("POST", "/", Route::Refused(Refusal::NotFound)),
        ("PUT", "/", Route::Refused(Refusal::MethodNotAllowed)),
        ("get", "/", Route::Refused(Refusal::MethodNotAllowed)),
    ] {
        assert_eq!(route(&request(method, path)), expected, "{method} {path}");
    }
}

#[test]
fn the_head_of_a_request_is_read() {
    let lines = [
        "POST /api/label HTTP/1.1\r\n",
        "HOST: 127.0.0.1:8787 \r\n",
        "Content-Length: 12\r\n",
        "Origin: http://127.0.0.1:8787\r\n",
        "not a header\r\n",
        "\r\n",
        "Host: late\r\n",
    ]
    .iter()
    .map(|line| (*line).to_owned())
    .collect::<Vec<_>>();
    let request = read_request(&lines).unwrap();
    assert_eq!(request.method, "POST");
    assert_eq!(request.path, "/api/label");
    assert_eq!(request.host.as_deref(), Some("127.0.0.1:8787"));
    assert_eq!(request.origin.as_deref(), Some("http://127.0.0.1:8787"));
    assert_eq!(request.length, 12);
    assert_eq!(body_length(&request), 12);
}

#[test]
fn odd_heads_are_tolerated() {
    assert!(read_request(&vec![]).is_none());
    assert!(read_request(&vec!["GET".to_owned()]).is_none());
    for (value, length) in [("x", 0), ("-1", 0), ("+7", 7), ("99999999999999999999999", 0)] {
        let lines = vec!["GET /".to_owned(), format!("content-length:{value}")];
        assert_eq!(read_request(&lines).unwrap().length, length, "{value}");
    }
    let lines = vec!["GET /".to_owned(), "Content-Length: 99999".to_owned()];
    assert_eq!(body_length(&read_request(&lines).unwrap()), 4096);
}

#[test]
fn only_so_many_connections_are_served() {
    assert!(!is_busy(63));
    assert!(is_busy(64));
}

#[test]
fn refusals_have_their_words() {
    for (refusal, status, message) in [
        (Refusal::Busy, "503 Service Unavailable", "busy"),
        (Refusal::CrossOrigin, "403 Forbidden", "cross-origin request"),
        (Refusal::NotFound, "404 Not Found", "not found"),
        (
            Refusal::MethodNotAllowed,
            "405 Method Not Allowed",
            "method not allowed",
        ),
        (
            Refusal::BadLabel,
            "400 Bad Request",
            "expected {\"host\":\"...\",\"label\":\"...\"}",
        ),
        (
            Refusal::BadPullRequest,
            "400 Bad Request",
            "expected {\"host\":\"...\",\"url\":\"...\"}",
        ),
        (
            Refusal::BadFocus,
            "400 Bad Request",
            "expected {\"host\":\"...\"}",
        ),
        (Refusal::UnknownHost, "404 Not Found", "unknown host"),
        (
            Refusal::NotAPullRequest,
            "400 Bad Request",
            "not a GitHub PR link",
        ),
        (
            Refusal::TooManyPullRequests,
            "400 Bad Request",
            "at most 8 PRs per devbox",
        ),
        (
            Refusal::LabelNotSaved,
            "500 Internal Server Error",
            "could not save label",
        ),
        (
            Refusal::PullRequestNotSaved,
            "500 Internal Server Error",
            "could not save PR",
        ),
    ] {
        assert_eq!(refusal.status(), status);
        assert_eq!(refusal.message(), message);
    }
    assert_eq!(Refusal::Busy.content_type(), "text/plain");
    assert_eq!(
        Refusal::NotFound.content_type(),
        "text/plain; charset=utf-8"
    );
}

#[test]
fn answers_have_a_head() {
    assert_eq!(
        response_head("200 OK", "text/html", 12),
        "HTTP/1.1 200 OK\r\nContent-Type: text/html\r\nContent-Length: 12\r\nCache-Control: no-store\r\nConnection: close\r\n\r\n"
    );
    assert_eq!(
        stream_head(),
        "HTTP/1.1 200 OK\r\nContent-Type: text/event-stream\r\nCache-Control: no-cache, no-store\r\nConnection: close\r\nX-Accel-Buffering: no\r\n\r\n"
    );
    assert_eq!(event_frame(Some("{}")), "data: {}\n\n");
    assert_eq!(event_frame(None), ": ping\n\n");
}

#[test]
fn the_first_state_shows_your_own_marks() {
    let mut labels = Table::new();
    labels.insert("dev-a".to_owned(), "train".to_owned());
    let mut prs = Table::new();
    prs.insert("dev-b".to_owned(), vec![parse("a/b#1").unwrap()]);
    let state = first_state(&vec!["dev-a".to_owned(), "dev-b".to_owned()], labels, prs);
    assert_eq!(state.schema_version, 1);
    assert_eq!(state.hosts[0].label, "train");
    assert_eq!(state.hosts[1].prs.len(), 1);
    assert!(state
        .hosts
        .iter()
        .all(|host| !host.reachable && !host.stale && host.error.is_none()));
}

fn label_request(host: &str, label: &str) -> Option<LabelRequest> {
    Some(LabelRequest {
        host: host.to_owned(),
        label: label.to_owned(),
    })
}

#[test]
fn a_label_is_shown_and_saved() {
    let mut published = Published::new(view(&["dev-a", " "]));
    let step = handle_label(
        &mut published,
        label_request("dev-a", " render   tree "),
        "dev-b = kept\n",
    );
    let LabelStep::Save(edit) = step else {
        panic!("the label is to be saved");
    };
    assert_eq!(edit.label, "render tree");
    assert_eq!(published.view.hosts[0].label, "render tree");
    assert_eq!(published.version, 2);
    let labels = read_labels(&edit.content);
    assert_eq!(labels.get("dev-a").unwrap(), "render tree");
    assert_eq!(labels.get("dev-b").unwrap(), "kept");

    let step = handle_label(&mut published, None, "");
    assert!(matches!(step, LabelStep::Refuse(Refusal::BadLabel)));
    let step = handle_label(&mut published, label_request("dev-x", "y"), "");
    assert!(matches!(step, LabelStep::Refuse(Refusal::UnknownHost)));
    assert_eq!(published.version, 2);
    let step = handle_label(&mut published, label_request(" ", "y"), "");
    assert!(matches!(step, LabelStep::Refuse(Refusal::LabelNotSaved)));
}

fn pr_request(host: &str, url: &str, action: &str) -> PrRequest {
    PrRequest {
        host: host.to_owned(),
        url: url.to_owned(),
        action: action.to_owned(),
    }
}

fn saved(step: PrStep) -> (String, Vec<PullRequest>) {
    match step {
        PrStep::Save(edit) => (edit.content, edit.list),
        PrStep::Refuse(refusal) => panic!("refused: {}", refusal.message()),
    }
}

#[test]
fn a_pull_request_is_attached_and_detached() {
    let published = Published::new(view(&["dev-a", " "]));
    let attach = pr_request("dev-a", "canva/canva#7", "");
    let (content, list) = saved(handle_pr(&published, Some(&attach), ""));
    assert_eq!(list.len(), 1);
    assert_eq!(read_prs(&content).get("dev-a").unwrap()[0].number, 7);
    let detach = pr_request("dev-a", "https://github.com/canva/canva/pull/7/files", "remove");
    let (content, list) = saved(handle_pr(&published, Some(&detach), &content));
    assert!(list.is_empty());
    assert!(!read_prs(&content).contains("dev-a"));
}

#[test]
fn pull_requests_are_refused_for_a_reason() {
    let mut published = Published::new(view(&["dev-a", " "]));
    let refusal = |published: &Published, request: Option<&PrRequest>| {
        match handle_pr(published, request, "") {
            PrStep::Refuse(refusal) => refusal,
            PrStep::Save(_) => panic!("a refusal is expected"),
        }
    };
    assert_eq!(refusal(&published, None), Refusal::BadPullRequest);
    assert_eq!(
        refusal(&published, Some(&pr_request("x", "a/b#1", ""))),
        Refusal::UnknownHost
    );
    assert_eq!(
        refusal(&published, Some(&pr_request("dev-a", "nope", ""))),
        Refusal::NotAPullRequest
    );
    assert_eq!(
        refusal(&published, Some(&pr_request(" ", "a/b#1", ""))),
        Refusal::PullRequestNotSaved
    );
    let full = (1..=PR_LIMIT)
        .map(|number| parse(&format!("canva/canva#{number}")).unwrap())
        .collect::<Vec<_>>();
    published.apply_prs("dev-a", full);
    assert_eq!(
        refusal(&published, Some(&pr_request("dev-a", "a/b#1", "add"))),
        Refusal::TooManyPullRequests
    );
    let present = pr_request("dev-a", "canva/canva#1", "");
    assert!(matches!(
        handle_pr(&published, Some(&present), ""),
        PrStep::Save(_)
    ));
    let detach = pr_request("dev-a", "a/b#1", "remove");
    assert!(matches!(
        handle_pr(&published, Some(&detach), ""),
        PrStep::Save(_)
    ));
}

#[test]
fn only_watched_hosts_reach_the_shell() {
    let published = Published::new(view(&["dev-a"]));
    let ask = |host: &str| FocusRequest {
        host: host.to_owned(),
    };
    assert_eq!(handle_focus(&published, None), Some(Refusal::BadFocus));
    assert_eq!(
        handle_focus(&published, Some(&ask("x"))),
        Some(Refusal::UnknownHost)
    );
    assert_eq!(handle_focus(&published, Some(&ask("dev-a"))), None);
}
