use llm_watch::links::{link_at, link_id, publish, LinkError, LinkPlace};
use llm_watch::model::{schema_version, Event, Link, RunRecord, LINK_TTL_SECONDS, SCHEMA_VERSION};
use llm_watch::paths::{expand_home, join};
use llm_watch::storage::{
    clear_link, clear_link_at, config_dir, directories, home_dir, json_names, prune,
    prune_by_default, recent_names, record_at, safe_name, short_host, snapshot_at, snapshot_at_time,
    state_dir, temporary_name, write_activity, write_activity_at, write_event, write_event_at,
    write_link, write_link_at, Environment,
};
use llm_watch::time::{format_time, now, parse_time, seconds_since, utc_now, Timestamp};

fn event(id: &str, state: &str, task: &str) -> Event {
    message_event(id, state, task, "")
}

fn message_event(id: &str, state: &str, task: &str, message: &str) -> Event {
    Event {
        schema_version: SCHEMA_VERSION,
        event_id: id.to_owned(),
        provider: "codex".to_owned(),
        event: "test".to_owned(),
        session_id: "one".to_owned(),
        run_id: "codex-one".to_owned(),
        host: "dev-one".to_owned(),
        cwd: "/workspace/app".to_owned(),
        project: "app".to_owned(),
        tmux: "app:1.0".to_owned(),
        task: task.to_owned(),
        message: message.to_owned(),
        state: state.to_owned(),
        updated_at: utc_now(),
    }
}

/// A state directory in memory: the files in it, by path.
#[derive(Default)]
struct Store {
    runs: Vec<(String, RunRecord)>,
    links: Vec<(String, Link)>,
    events: Vec<(String, Event)>,
    clock: u128,
}

const ROOT: &str = "/state";

fn put<T>(files: &mut Vec<(String, T)>, path: String, record: T) {
    files.retain(|file| file.0 != path);
    files.push((path, record));
}

fn names<T>(files: &[(String, T)]) -> Vec<String> {
    files
        .iter()
        .map(|file| file.0.rsplit('/').next().unwrap().to_owned())
        .collect()
}

fn load<T: Clone>(files: &[(String, T)], wanted: &[String]) -> Vec<Option<T>> {
    wanted
        .iter()
        .map(|name| {
            files
                .iter()
                .find(|file| file.0.ends_with(name.as_str()))
                .map(|file| file.1.clone())
        })
        .collect()
}

impl Store {
    fn previous(&self, event: &Event) -> Option<RunRecord> {
        let path = llm_watch::storage::run_path(event, ROOT);
        self.runs
            .iter()
            .find(|file| file.0 == path)
            .map(|file| file.1.clone())
    }

    fn write_event(&mut self, event: &Event) {
        self.clock += 1;
        let plan = write_event_at(event, self.previous(event), self.clock, ROOT);
        put(&mut self.runs, plan.run.path, plan.run.run);
        put(&mut self.events, plan.event_path, event.clone());
    }

    fn write_activity(&mut self, event: &Event) {
        let plan = write_activity_at(event, self.previous(event), ROOT);
        put(&mut self.runs, plan.path, plan.run);
    }

    fn write_link(&mut self, link: &Link) {
        put(&mut self.links, write_link_at(link, ROOT), link.clone());
    }

    fn clear_link(&mut self, id: &str) {
        let path = clear_link_at(id, ROOT);
        self.links.retain(|file| file.0 != path);
    }

    fn snapshot(&self, limit: usize) -> llm_watch::model::Snapshot {
        snapshot_at(
            "dev-one".to_owned(),
            load(&self.runs, &json_names(&names(&self.runs))),
            load(&self.links, &json_names(&names(&self.links))),
            load(&self.events, &recent_names(&names(&self.events), limit)),
        )
    }
}

fn event_ids(snapshot: &llm_watch::model::Snapshot) -> Vec<&str> {
    snapshot
        .events
        .iter()
        .map(|event| event.event_id.as_str())
        .collect()
}

#[test]
fn ready_event_preserves_the_prompt_task() {
    let mut store = Store::default();
    store.write_event(&event("event-1", "running", "Implement the feature"));
    store.write_event(&event("event-2", "ready", ""));
    let result = store.snapshot(10);
    assert_eq!(result.runs.len(), 1);
    assert_eq!(result.runs[0].task, "Implement the feature");
    assert_eq!(result.runs[0].state, "ready");
    assert_eq!(event_ids(&result), vec!["event-1", "event-2"]);
}

#[test]
fn activity_refreshes_the_run_but_stays_out_of_the_event_log() {
    let mut store = Store::default();
    store.write_event(&message_event(
        "event-1",
        "ready",
        "Fix the tests",
        "All green.",
    ));
    store.write_activity(&event("beat-1", "running", ""));
    let result = store.snapshot(10);
    assert_eq!(result.runs.len(), 1);
    assert_eq!(result.runs[0].state, "running");
    // The heartbeat merges like any event: task and message survive.
    assert_eq!(result.runs[0].task, "Fix the tests");
    assert_eq!(result.runs[0].message, "All green.");
    // But the event feed still only carries the real lifecycle event.
    assert_eq!(event_ids(&result), vec!["event-1"]);
}

fn link(id: &str, url: &str, updated_at: &str) -> Link {
    Link {
        schema_version: SCHEMA_VERSION,
        id: id.to_owned(),
        kind: "difit".to_owned(),
        url: url.to_owned(),
        title: "canva".to_owned(),
        cwd: "/home/coder/work/canva".to_owned(),
        project: "canva".to_owned(),
        tmux: "main:1.1".to_owned(),
        updated_at: updated_at.to_owned(),
    }
}

#[test]
fn links_expire_once_they_stop_being_refreshed() {
    let mut store = Store::default();
    let mut past = now();
    past.seconds -= LINK_TTL_SECONDS + 60;
    let stale = format_time(past);

    store.write_link(&link("fresh", "https://a.example.dev", &utc_now()));
    store.write_link(&link("stale", "https://b.example.dev", &stale));
    // A record with no timestamp at all must not be treated as live.
    store.write_link(&link("undated", "https://c.example.dev", ""));

    let live = store.snapshot(0).links;
    assert_eq!(live.len(), 1);
    assert_eq!(live[0].id, "fresh");

    // Clearing is idempotent, so an exit trap can always run it.
    store.clear_link("fresh");
    store.clear_link("fresh");
    assert!(store.snapshot(0).links.is_empty());
}

#[test]
fn the_last_message_survives_later_events_that_carry_none() {
    let mut store = Store::default();
    store.write_event(&message_event(
        "event-1",
        "ready",
        "Rebase the train",
        "Rebased and force pushed.",
    ));
    // An approval prompt arrives with no message of its own.
    store.write_event(&message_event("event-2", "approval", "", ""));
    let result = store.snapshot(10);
    assert_eq!(result.runs[0].state, "approval");
    assert_eq!(result.runs[0].message, "Rebased and force pushed.");

    // A newer turn replaces it rather than being ignored.
    store.write_event(&message_event("event-3", "ready", "", "Tests pass."));
    let result = store.snapshot(10);
    assert_eq!(result.runs[0].message, "Tests pass.");
}

#[test]
fn the_files_of_an_event_lie_below_the_root() {
    let plan = write_event_at(&event("e-1", "ready", ""), None, 1234, "/root");
    assert_eq!(plan.run.path, "/root/runs/codex-one.json");
    assert_eq!(
        plan.event_path,
        "/root/events/00000000000000001234-e-1.json"
    );
    let beat = write_activity_at(&event("e-2", "running", ""), None, "/root/");
    assert_eq!(beat.path, "/root/runs/codex-one.json");
    assert_eq!(beat.run.state, "running");
}

#[test]
fn a_heartbeat_has_no_file_of_its_own() {
    let mut beat = event("e-1", "running", "");
    beat.event = "post_tool_use".to_owned();
    let plan = record_at(&beat, None, 1, "/root");
    assert!(plan.event_path.is_none());
    assert_eq!(plan.run.path, "/root/runs/codex-one.json");
    beat.event = "Stop".to_owned();
    let plan = record_at(&beat, None, 1, "/root");
    assert_eq!(
        plan.event_path.as_deref(),
        Some("/root/events/00000000000000000001-e-1.json")
    );
}

#[test]
fn a_record_keeps_its_pane() {
    let before = RunRecord {
        tmux: "old:0.0".to_owned(),
        task: "old".to_owned(),
        ..RunRecord::default()
    };
    let mut quiet = event("e", "ready", "new");
    quiet.tmux = String::new();
    let run = write_activity_at(&quiet, Some(before), "/r").run;
    assert_eq!(run.tmux, "old:0.0");
    assert_eq!(run.task, "new");
    assert_eq!(run.schema_version, SCHEMA_VERSION);
}

#[test]
fn only_the_recent_events_are_read() {
    let mut store = Store::default();
    for number in 0..5 {
        store.write_event(&event(&format!("event-{number}"), "ready", ""));
    }
    assert_eq!(event_ids(&store.snapshot(2)), vec!["event-3", "event-4"]);
    assert!(store.snapshot(0).events.is_empty());
    assert_eq!(store.snapshot(9).events.len(), 5);
}

#[test]
fn the_latest_session_comes_first() {
    let run = |id: &str, updated_at: &str| {
        Some(RunRecord {
            run_id: id.to_owned(),
            updated_at: updated_at.to_owned(),
            ..RunRecord::default()
        })
    };
    let at = parse_time("2026-08-07T10:00:00Z").unwrap();
    let snapshot = snapshot_at_time(
        "dev".to_owned(),
        at,
        vec![
            run("a", "2026-08-07T09:00:00Z"),
            None,
            run("b", "2026-08-07T09:30:00Z"),
            run("c", "2026-08-07T09:00:00Z"),
        ],
        vec![],
        vec![None, Some(event("kept", "ready", ""))],
    );
    let ids = snapshot
        .runs
        .iter()
        .map(|run| run.run_id.as_str())
        .collect::<Vec<_>>();
    assert_eq!(ids, vec!["b", "a", "c"]);
    assert_eq!(snapshot.host, "dev");
    assert_eq!(snapshot.generated_at, "2026-08-07T10:00:00Z");
    assert_eq!(snapshot.schema_version, 1);
    assert_eq!(event_ids(&snapshot), vec!["kept"]);
}

#[test]
fn live_links_are_sorted_by_kind_title_and_identifier() {
    let at = parse_time("2026-08-07T10:03:00Z").unwrap();
    let entry = |id: &str, kind: &str, title: &str, updated_at: &str| {
        let mut entry = link(id, "https://x.dev", updated_at);
        entry.kind = kind.to_owned();
        entry.title = title.to_owned();
        Some(entry)
    };
    let mut nowhere = link("nowhere", "", "2026-08-07T10:03:00Z");
    nowhere.kind = "a".to_owned();
    let snapshot = snapshot_at_time(
        "dev".to_owned(),
        at,
        vec![],
        vec![
            entry("3", "b", "x", "2026-08-07T10:03:00Z"),
            entry("2", "a", "z", "2026-08-07T10:03:00Z"),
            entry("1", "a", "z", "2026-08-07T10:00:00Z"),
            entry("0", "a", "y", "2026-08-07T10:09:00Z"),
            // One second past its lifetime.
            entry("late", "a", "a", "2026-08-07T09:59:59Z"),
            Some(nowhere),
        ],
        vec![],
    );
    let ids = snapshot
        .links
        .iter()
        .map(|link| link.id.as_str())
        .collect::<Vec<_>>();
    assert_eq!(ids, vec!["0", "1", "2", "3"]);
}

#[test]
fn names_of_files_are_safe() {
    assert_eq!(safe_name("codex-one"), "codex-one");
    assert_eq!(safe_name("a / b//c"), "a-b-c");
    assert_eq!(safe_name("../../etc/passwd"), "etc-passwd");
    assert_eq!(safe_name("-.x_y.-"), "x_y");
    assert_eq!(safe_name(""), "unknown");
    assert_eq!(safe_name("ééé"), "unknown");
    assert_eq!(safe_name(&"a".repeat(300)).len(), 160);
    let long = format!("{}-{}", "a".repeat(159), "b");
    assert_eq!(safe_name(&long), "a".repeat(159));
    let once = safe_name("we?rd //name");
    assert_eq!(safe_name(&once), once);
}

#[test]
fn only_json_files_are_read() {
    let names = ["b.json", "a.json", ".json", "..json", "x.jso", "y.json.tmp", "json"]
        .iter()
        .map(|name| (*name).to_owned())
        .collect::<Vec<_>>();
    assert_eq!(json_names(&names), vec!["..json", "a.json", "b.json"]);
    assert_eq!(recent_names(&names, 1), vec!["b.json"]);
}

#[test]
fn old_files_are_pruned() {
    let at = |seconds: i64, nanos: u32| Timestamp { seconds, nanos };
    let now = at(20 * 86_400, 5);
    let files = vec![
        ("old".to_owned(), Some(at(6 * 86_400, 4))),
        ("edge".to_owned(), Some(at(6 * 86_400, 5))),
        ("new".to_owned(), Some(at(19 * 86_400, 0))),
        ("unknown".to_owned(), None),
    ];
    assert_eq!(prune(&files, now, 14), vec!["old"]);
    assert_eq!(prune_by_default(&files, now), vec!["old"]);
    assert_eq!(prune(&files, now, 0), vec!["old", "edge", "new"]);
    // A span that reaches further back than time can tell ends at the start of 1970.
    let ancient = vec![("ancient".to_owned(), Some(at(-1, 0)))];
    assert_eq!(
        prune(&ancient, at(-10, 0), u64::MAX / 86_400),
        vec!["ancient"]
    );
}

fn environment() -> Environment {
    Environment {
        state_dir: None,
        state_home: None,
        config_dir: None,
        config_home: None,
        home: Some("/home/u".to_owned()),
    }
}

#[test]
fn directories_follow_the_environment() {
    let mut place = environment();
    assert_eq!(state_dir(&place), "/home/u/.local/state/llm-watch");
    assert_eq!(config_dir(&place), "/home/u/.config/llm-watch");
    place.state_home = Some("~/s".to_owned());
    place.config_home = Some("/c".to_owned());
    assert_eq!(state_dir(&place), "/home/u/s/llm-watch");
    assert_eq!(config_dir(&place), "/c/llm-watch");
    place.state_dir = Some("/own".to_owned());
    place.config_dir = Some("~".to_owned());
    assert_eq!(state_dir(&place), "/own");
    assert_eq!(config_dir(&place), "/home/u");
    place.home = None;
    assert_eq!(home_dir(&place), ".");
    assert_eq!(config_dir(&place), ".");
    let parts = directories("/own");
    assert_eq!(
        (parts.runs, parts.links, parts.events),
        (
            "/own/runs".to_owned(),
            "/own/links".to_owned(),
            "/own/events".to_owned()
        )
    );
}

#[test]
fn files_are_written_where_the_environment_says() {
    let place = environment();
    let root = "/home/u/.local/state/llm-watch";
    let plan = write_event(&event("e", "ready", ""), None, 7, &place);
    assert_eq!(plan.run.path, format!("{root}/runs/codex-one.json"));
    assert_eq!(
        plan.event_path,
        format!("{root}/events/00000000000000000007-e.json")
    );
    assert_eq!(
        write_activity(&event("e", "ready", ""), None, &place).path,
        plan.run.path
    );
    let page = link("a/b", "https://x.dev", "");
    assert_eq!(write_link(&page, &place), format!("{root}/links/a-b.json"));
    assert_eq!(clear_link("a/b", &place), write_link(&page, &place));
}

#[test]
fn a_tilde_stands_for_the_home_directory() {
    assert_eq!(expand_home("~", "/h"), "/h");
    assert_eq!(expand_home("~/x", "/h"), "/h/x");
    assert_eq!(expand_home("~x", "/h"), "~x");
    assert_eq!(expand_home("/a/~", "/h"), "/a/~");
    assert_eq!(join("/a/", "b"), "/a/b");
    assert_eq!(join("/a", "/b"), "/b");
    assert_eq!(join("", "b"), "b");
}

#[test]
fn machines_have_short_names() {
    assert_eq!(short_host(Some("dev.example.com"), None), "dev");
    assert_eq!(short_host(Some(""), Some(" laptop.local\n")), "laptop");
    assert_eq!(short_host(None, Some("box")), "box");
    assert_eq!(short_host(None, Some(" \n")), "unknown");
    assert_eq!(short_host(None, None), "unknown");
}

#[test]
fn new_content_is_written_aside_first() {
    assert_eq!(temporary_name(Some("a.json"), 12, "u"), ".a.json.12.u");
    assert_eq!(temporary_name(None, 0, "u"), ".state.json.0.u");
}

fn place() -> LinkPlace {
    LinkPlace {
        cwd: "/w".to_owned(),
        tmux_pane: Some("%1".to_owned()),
        tmux: "main:1.1".to_owned(),
    }
}

#[test]
fn a_link_belongs_to_its_kind_directory_and_pane() {
    let here = place();
    // The name-based UUID of "difit|/w|%1" in the URL namespace.
    assert_eq!(
        link_id("difit", None, &here),
        "344d3929-e858-5448-aa29-995f85ec9d9b"
    );
    assert_eq!(link_id("difit", Some("own"), &here), "own");
    assert_ne!(link_id("other", None, &here), link_id("difit", None, &here));
    let page = publish(None, "difit", "https://x.dev", "PR 1234", &here)
        .ok()
        .unwrap();
    assert_eq!(page.id, link_id("difit", None, &here));
    assert_eq!(page.kind, "difit");
    assert_eq!(page.title, "PR 1234");
    assert_eq!(page.project, "w");
    assert_eq!(page.tmux, "main:1.1");
    assert!(parse_time(&page.updated_at).is_some());
}

#[test]
fn only_web_pages_are_published() {
    for url in ["ftp://x", "javascript:alert(1)", "", "/path", " https://x.dev"] {
        let refused = link_at("i".into(), "k", url, "", &place(), utc_now());
        assert!(matches!(refused, Err(LinkError::NotAWebPage)));
    }
    assert!(link_at("i".into(), "k", "http://x.dev", "", &place(), utc_now()).is_ok());
    assert_eq!(
        LinkError::NotAWebPage.message(),
        "only http and https URLs are accepted"
    );
}

#[test]
fn times_are_read_and_written_in_utc() {
    let at = parse_time("2026-08-07T12:00:00.5+02:00").unwrap();
    assert_eq!(format_time(at), "2026-08-07T10:00:00Z");
    assert_eq!((at.seconds, at.nanos), (1_786_096_800, 500_000_000));
    assert!(parse_time("2026-08-07").is_none());
    let later = parse_time("2026-08-07T10:00:02.4Z").unwrap();
    assert_eq!(seconds_since(later, at), 1);
    assert_eq!(seconds_since(at, later), -1);
    let written = utc_now();
    assert_eq!(format_time(parse_time(&written).unwrap()), written);
}

#[test]
fn events_become_records() {
    let source = message_event("e", "ready", "t", "m");
    let run = RunRecord::from(source.clone());
    assert_eq!(run.run_id, source.run_id);
    assert_eq!(run.message, "m");
    assert_eq!(run.updated_at, source.updated_at);
    assert_eq!(schema_version(), 1);
    assert_eq!(RunRecord::default().schema_version, 0);
}

#[test]
fn a_link_that_is_set_again_replaces_itself() {
    let mut store = Store::default();
    store.write_link(&link("one", "https://a.example.dev", &utc_now()));
    store.write_link(&link("one", "https://b.example.dev", &utc_now()));
    let live = store.snapshot(0).links;
    assert_eq!(live.len(), 1);
    assert_eq!(live[0].url, "https://b.example.dev");
}

#[test]
fn sessions_do_not_touch_each_other() {
    let mut store = Store::default();
    store.write_event(&event("event-1", "running", "first"));
    let mut other = event("event-2", "ready", "second");
    other.run_id = "codex-two".to_owned();
    store.write_event(&other);
    let result = store.snapshot(10);
    assert_eq!(result.runs.len(), 2);
    let first = result
        .runs
        .iter()
        .find(|run| run.run_id == "codex-one")
        .unwrap();
    assert_eq!((first.state.as_str(), first.task.as_str()), ("running", "first"));
}

#[test]
fn event_files_sort_by_time() {
    let path = |nanos: u128, id: &str| write_event_at(&event(id, "ready", ""), None, nanos, "/r").event_path;
    assert!(path(9, "z") < path(10, "a"));
    assert!(path(99_999_999_999_999_999_998, "z") < path(99_999_999_999_999_999_999, "a"));
}
