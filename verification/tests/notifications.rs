use llm_watch::model::{DashboardCache, Event, RunRecord, Snapshot, SCHEMA_VERSION};
use llm_watch::notifications::{
    cache_path, capitalize, notify, notify_with, process_notifications, with_last_known, Notifiers,
    SEEN_LIMIT,
};
use llm_watch::table::Table;

const NO_NOTIFIERS: Notifiers = Notifiers {
    terminal_notifier: false,
    osascript: false,
    notify_send: false,
};

fn event(id: &str, run_id: &str, state: &str) -> Event {
    Event {
        schema_version: SCHEMA_VERSION,
        event_id: id.to_owned(),
        provider: "codex".to_owned(),
        event: "test".to_owned(),
        session_id: "one".to_owned(),
        run_id: run_id.to_owned(),
        host: "dev-one".to_owned(),
        cwd: "/workspace/app".to_owned(),
        project: "app".to_owned(),
        tmux: "app:1.0".to_owned(),
        task: "".to_owned(),
        message: "".to_owned(),
        state: state.to_owned(),
        updated_at: "2026-08-07T10:00:00Z".to_owned(),
    }
}

fn run(run_id: &str, state: &str) -> RunRecord {
    RunRecord {
        run_id: run_id.to_owned(),
        state: state.to_owned(),
        ..RunRecord::default()
    }
}

fn poll(host: &str, runs: Vec<RunRecord>, events: Vec<Event>) -> Table<Snapshot> {
    let mut snapshots = Table::new();
    snapshots.insert(
        host.to_owned(),
        Snapshot {
            schema_version: SCHEMA_VERSION,
            host: host.to_owned(),
            generated_at: "2026-08-07T10:00:00Z".to_owned(),
            runs,
            links: vec![],
            events,
        },
    );
    snapshots
}

#[test]
fn the_first_look_is_a_baseline() {
    let first = poll(
        "dev-a",
        vec![run("r", "ready")],
        vec![event("1", "r", "ready")],
    );
    let (cache, sent) = process_notifications(DashboardCache::default(), &first, true);
    assert!(sent.is_empty());
    assert_eq!(cache.initialized_hosts, vec!["dev-a"]);
    assert_eq!(cache.seen_events, vec!["1"]);
    assert!(cache.last_snapshots.contains("dev-a"));
}

#[test]
fn later_events_notify_once() {
    let first = poll("dev-a", vec![], vec![]);
    let (cache, _) = process_notifications(DashboardCache::default(), &first, true);
    let second = poll(
        "dev-a",
        vec![run("r", "ready")],
        vec![event("1", "r", "ready"), event("1", "r", "ready")],
    );
    let (cache, sent) = process_notifications(cache, &second, true);
    assert_eq!(sent.len(), 1);
    assert_eq!(sent[0].title, "LLM Watch: READY");
    assert_eq!(sent[0].message, "dev-a · Codex · app");
    let (_, sent) = process_notifications(cache, &second, true);
    assert!(sent.is_empty(), "the same snapshot is no news");
}

#[test]
fn an_old_approval_is_not_shown() {
    let (cache, _) =
        process_notifications(DashboardCache::default(), &poll("dev-a", vec![], vec![]), true);
    let moved_on = poll(
        "dev-a",
        vec![run("r", "running")],
        vec![event("1", "r", "approval"), event("2", "r", "running")],
    );
    let (cache, sent) = process_notifications(cache, &moved_on, true);
    assert!(sent.is_empty());
    assert_eq!(cache.seen_events, vec!["1", "2"]);
}

#[test]
fn the_last_record_of_a_session_counts() {
    let (cache, _) =
        process_notifications(DashboardCache::default(), &poll("dev-a", vec![], vec![]), true);
    let twice = poll(
        "dev-a",
        vec![run("r", "running"), run("r", "error")],
        vec![event("1", "r", "error")],
    );
    let (_, sent) = process_notifications(cache, &twice, true);
    assert_eq!(sent[0].title, "LLM Watch: ERROR");
}

#[test]
fn only_some_states_call_for_the_user() {
    let (cache, _) =
        process_notifications(DashboardCache::default(), &poll("dev-a", vec![], vec![]), true);
    let states = ["running", "ready", "idle", "stopped", "approval", "error"];
    let runs = states.iter().map(|state| run(state, state)).collect();
    let events = states
        .iter()
        .map(|state| event(state, state, state))
        .collect();
    let (_, sent) = process_notifications(cache, &poll("dev-a", runs, events), true);
    let titles = sent
        .iter()
        .map(|notification| notification.title.as_str())
        .collect::<Vec<_>>();
    assert_eq!(
        titles,
        vec!["LLM Watch: READY", "LLM Watch: APPROVAL", "LLM Watch: ERROR"]
    );
}

#[test]
fn what_is_not_sent_is_still_seen() {
    let (cache, _) =
        process_notifications(DashboardCache::default(), &poll("dev-a", vec![], vec![]), false);
    let second = poll(
        "dev-a",
        vec![run("r", "ready")],
        vec![event("1", "r", "ready")],
    );
    let (cache, sent) = process_notifications(cache, &second, false);
    assert!(sent.is_empty());
    let (_, sent) = process_notifications(cache, &second, true);
    assert!(sent.is_empty());
}

#[test]
fn a_notification_names_the_task_if_there_is_one() {
    let (cache, _) =
        process_notifications(DashboardCache::default(), &poll("dev-a", vec![], vec![]), true);
    let mut with_task = event("1", "r", "ready");
    with_task.task = "Fix it".to_owned();
    let mut bare = event("2", "r", "ready");
    bare.project = String::new();
    bare.provider = String::new();
    let (_, sent) = process_notifications(
        cache,
        &poll("dev-a", vec![run("r", "ready")], vec![with_task, bare]),
        true,
    );
    assert_eq!(sent[0].message, "dev-a · Codex · Fix it");
    assert_eq!(sent[1].message, "dev-a · LLM · session");
}

#[test]
fn only_so_many_events_are_remembered() {
    let events = (0..SEEN_LIMIT + 2)
        .map(|number| event(&format!("{number}"), "r", "idle"))
        .collect();
    let (cache, _) = process_notifications(
        DashboardCache::default(),
        &poll("dev-a", vec![], events),
        true,
    );
    assert_eq!(cache.seen_events.len(), SEEN_LIMIT);
    assert_eq!(cache.seen_events[0], "2");
}

#[test]
fn the_hosts_that_were_reached_are_sorted() {
    let cache = DashboardCache {
        initialized_hosts: vec!["z".to_owned(), "b".to_owned(), "z".to_owned()],
        seen_events: vec![],
        last_snapshots: Table::new(),
    };
    let (cache, _) = process_notifications(cache, &poll("c", vec![], vec![]), true);
    assert_eq!(cache.initialized_hosts, vec!["b", "c", "z"]);
}

#[test]
fn unreachable_hosts_show_what_was_last_known() {
    let (cache, _) = process_notifications(
        DashboardCache::default(),
        &poll("dev-a", vec![run("old", "ready")], vec![]),
        true,
    );
    let now = poll("dev-b", vec![run("new", "ready")], vec![]);
    let hosts = vec!["dev-a".to_owned(), "dev-b".to_owned(), "dev-c".to_owned()];
    let shown = with_last_known(&cache, &now, &hosts);
    assert_eq!(shown.keys(), vec!["dev-a", "dev-b"]);
    assert_eq!(shown.get("dev-a").unwrap().runs[0].run_id, "old");
    // A host that is no longer watched is not shown.
    let shown = with_last_known(&cache, &now, &vec!["dev-b".to_owned()]);
    assert_eq!(shown.keys(), vec!["dev-b"]);
    // A fresh snapshot takes the place of the known one.
    let fresh = poll("dev-a", vec![run("fresh", "ready")], vec![]);
    let shown = with_last_known(&cache, &fresh, &hosts);
    assert_eq!(shown.get("dev-a").unwrap().runs[0].run_id, "fresh");
}

#[test]
fn names_begin_in_upper_case() {
    assert_eq!(capitalize("codex"), "Codex");
    assert_eq!(capitalize("élan"), "Élan");
    assert_eq!(capitalize("ßa"), "SSa");
    assert_eq!(capitalize(""), "LLM");
    assert_eq!(capitalize("9x"), "9x");
}

#[test]
fn a_configured_notifier_gets_title_and_message_last() {
    assert_eq!(
        notify(Some("my-notifier --as 'two words'"), NO_NOTIFIERS, "t", "m").unwrap(),
        vec!["my-notifier", "--as", "two words", "t", "m"]
    );
    // A command that cannot be read, or is blank, shows nothing.
    assert!(notify(Some("'open"), NO_NOTIFIERS, "t", "m").is_none());
    assert!(notify(Some("  "), NO_NOTIFIERS, "t", "m").is_none());
    assert!(notify_with(Some(None), NO_NOTIFIERS, "t", "m").is_none());
}

#[test]
fn the_first_notifier_at_hand_is_used() {
    let all = Notifiers {
        terminal_notifier: true,
        osascript: true,
        notify_send: true,
    };
    assert_eq!(
        notify(None, all, "t", "m").unwrap(),
        vec!["terminal-notifier", "-title", "t", "-message", "m", "-group", "llm-watch"]
    );
    let mac = Notifiers {
        terminal_notifier: false,
        ..all
    };
    assert_eq!(
        notify(None, mac, "t", "m").unwrap(),
        vec![
            "osascript",
            "-e",
            "on run argv\ndisplay notification (item 2 of argv) with title (item 1 of argv)\nend run",
            "--",
            "t",
            "m"
        ]
    );
    let linux = Notifiers {
        osascript: false,
        ..mac
    };
    assert_eq!(
        notify(None, linux, "t", "m").unwrap(),
        vec!["notify-send", "t", "m"]
    );
    assert!(notify(None, NO_NOTIFIERS, "t", "m").is_none());
}

#[test]
fn the_cache_lies_in_the_state() {
    assert_eq!(cache_path("/s"), "/s/dashboard-cache.json");
}

#[test]
fn a_new_host_is_a_baseline_while_others_notify() {
    let (cache, _) =
        process_notifications(DashboardCache::default(), &poll("dev-a", vec![], vec![]), true);
    let mut both = poll(
        "dev-a",
        vec![run("r", "ready")],
        vec![event("1", "r", "ready")],
    );
    let other = poll(
        "dev-b",
        vec![run("s", "ready")],
        vec![event("2", "s", "ready")],
    );
    both.insert("dev-b".to_owned(), other.get("dev-b").unwrap().clone());
    let (cache, sent) = process_notifications(cache, &both, true);
    assert_eq!(sent.len(), 1);
    assert_eq!(sent[0].message, "dev-a · Codex · app");
    assert_eq!(cache.seen_events, vec!["1", "2"]);
}

#[test]
fn the_same_poll_again_leaves_the_cache_as_it_is() {
    let both = || {
        let mut both = poll("dev-b", vec![], vec![event("2", "s", "ready")]);
        let other = poll("dev-a", vec![], vec![event("1", "r", "ready")]);
        both.insert("dev-a".to_owned(), other.get("dev-a").unwrap().clone());
        both
    };
    let (once, _) = process_notifications(DashboardCache::default(), &both(), true);
    let hosts = once.initialized_hosts.clone();
    let seen = once.seen_events.clone();
    let (twice, sent) = process_notifications(once, &both(), true);
    assert!(sent.is_empty());
    assert_eq!(twice.initialized_hosts, hosts);
    assert_eq!(twice.seen_events, seen);
    assert_eq!(twice.last_snapshots.len(), 2);
    for host in ["dev-a", "dev-b"] {
        assert_eq!(twice.last_snapshots.get(host), both().get(host));
    }
}
