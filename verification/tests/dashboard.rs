use llm_watch::dashboard::{
    access, age, collect, fetched, is_local_host, or_dash, output_lines, parse_snapshot_output,
    render_table, render_table_at, ssh_complaint, status_line, status_line_at, Access, Outcome,
};
use llm_watch::model::{RunRecord, Snapshot, SCHEMA_VERSION};
use llm_watch::table::Table;
use llm_watch::time::{parse_time, utc_now, Timestamp};

fn empty_snapshot(host: &str) -> Snapshot {
    Snapshot {
        schema_version: SCHEMA_VERSION,
        host: host.into(),
        generated_at: utc_now(),
        runs: vec![],
        links: vec![],
        events: vec![],
    }
}

fn at(text: &str) -> Timestamp {
    parse_time(text).unwrap()
}

#[test]
fn remote_banner_is_ignored() {
    let snapshot = empty_snapshot("dev");
    let lines = output_lines("Welcome\n{\"schema_version\":1}\n");
    assert_eq!(lines, vec!["Welcome", "{\"schema_version\":1}"]);
    // Only the second line is a snapshot.
    let decoded = vec![None, Some(snapshot.clone())];
    assert_eq!(parse_snapshot_output(decoded).unwrap(), snapshot);
}

#[test]
fn stopped_rows_are_hidden() {
    let mut snapshot = empty_snapshot("dev");
    snapshot.runs = vec![RunRecord {
        state: "stopped".into(),
        ..RunRecord::default()
    }];
    let mut snapshots = Table::new();
    snapshots.insert("coder.dev".into(), snapshot);
    let table = render_table(&snapshots, &Table::new(), false);
    assert_eq!(table, "No active LLM sessions found.");
}

#[test]
fn stopped_rows_are_shown_on_request() {
    let mut snapshot = empty_snapshot("dev");
    snapshot.runs = vec![RunRecord {
        state: "stopped".into(),
        ..RunRecord::default()
    }];
    let mut snapshots = Table::new();
    snapshots.insert("coder.dev".into(), snapshot);
    let table = render_table(&snapshots, &Table::new(), true);
    assert!(table.contains("STOPPED"));
}

#[test]
fn the_last_snapshot_counts() {
    let decoded = vec![Some(empty_snapshot("a")), Some(empty_snapshot("b")), None];
    assert_eq!(parse_snapshot_output(decoded).unwrap().host, "b");
    assert_eq!(
        parse_snapshot_output(vec![None]).unwrap_err(),
        "invalid snapshot response"
    );
}

#[test]
fn the_table_is_exact() {
    let mut snapshot = empty_snapshot("dev");
    snapshot.runs = vec![
        RunRecord {
            tmux: "main:1.1".into(),
            provider: "codex".into(),
            project: "payments".into(),
            task: "Add  retries".into(),
            state: "running".into(),
            updated_at: "2026-08-07T10:00:00Z".into(),
            ..RunRecord::default()
        },
        RunRecord {
            state: "ready".into(),
            ..RunRecord::default()
        },
    ];
    let mut snapshots = Table::new();
    snapshots.insert("coder.dev".into(), snapshot);
    let mut errors = Table::new();
    errors.insert("b".into(), "SSH timed out".into());
    let table = render_table_at(&snapshots, &errors, false, at("2026-08-07T10:02:05Z"));
    assert_eq!(
        table,
        "HOST       TMUX      TOOL   PROJECT   TASK           STATE        AGE\n\
         ---------  --------  -----  --------  -------------  -----------  ---\n\
         coder.dev  main:1.1  codex  payments  Add retries    RUNNING      2m \n\
         coder.dev  -         -      -         -              READY        ?  \n\
         b          -         -      -         SSH timed out  UNREACHABLE  -  "
    );
}

#[test]
fn the_lines_of_the_table_are_aligned() {
    let mut snapshots = Table::new();
    for (host, task) in [("a", "ünïcödé"), ("bbbbbbb", "x")] {
        let mut snapshot = empty_snapshot(host);
        snapshot.runs = vec![RunRecord {
            task: task.into(),
            state: "ready".into(),
            ..RunRecord::default()
        }];
        snapshots.insert(host.into(), snapshot);
    }
    let table = render_table(&snapshots, &Table::new(), false);
    let widths = table
        .lines()
        .map(|line| line.chars().count())
        .collect::<Vec<_>>();
    assert_eq!(widths.len(), 4);
    assert!(widths.iter().all(|width| *width == widths[0]));
}

#[test]
fn ages_are_given_in_one_unit() {
    let now = at("2026-08-07T10:00:00Z");
    for (value, expected) in [
        ("2026-08-07T10:00:00Z", "0s"),
        ("2026-08-07T09:59:01Z", "59s"),
        ("2026-08-07T09:59:00Z", "1m"),
        ("2026-08-07T09:00:01Z", "59m"),
        ("2026-08-07T09:00:00Z", "1h"),
        ("2026-08-06T10:00:01Z", "23h"),
        ("2026-08-06T10:00:00Z", "1d"),
        ("2026-07-07T10:00:00Z", "31d"),
        // A clock that runs ahead is no reason for a negative age.
        ("2026-08-07T11:00:00Z", "0s"),
        ("2026-08-07T12:00:00+02:00", "0s"),
        ("", "?"),
        ("yesterday", "?"),
    ] {
        assert_eq!(age(value, now), expected, "{value}");
    }
}

#[test]
fn missing_cells_are_dashes() {
    assert_eq!(or_dash(""), "-");
    assert_eq!(or_dash("x"), "x");
}

#[test]
fn the_machine_itself_is_read_without_a_connection() {
    for host in ["local", "localhost", "127.0.0.1", "::1"] {
        assert!(is_local_host(host));
        assert!(matches!(access(host, 3, 200), Access::Local));
    }
    for host in ["Local", "local.dev", "dev", ""] {
        assert!(!is_local_host(host));
        assert!(matches!(access(host, 3, 200), Access::Ssh(_)));
    }
}

#[test]
fn ssh_is_asked_for_a_snapshot() {
    let Access::Ssh(arguments) = access("coder.dev", 0, 200) else {
        panic!("another machine is read by ssh");
    };
    assert_eq!(
        arguments,
        vec![
            "-o",
            "BatchMode=yes",
            "-o",
            "ConnectTimeout=1",
            "coder.dev",
            "~/.local/bin/llm-watch snapshot --events 200",
        ]
    );
    let Access::Ssh(arguments) = access("coder.dev", 7, 0) else {
        panic!("another machine is read by ssh");
    };
    assert_eq!(arguments[3], "ConnectTimeout=7");
    assert_eq!(arguments[5], "~/.local/bin/llm-watch snapshot --events 0");
}

#[test]
fn every_outcome_has_its_words() {
    assert_eq!(
        ssh_complaint("Warning: banner\nPermission denied\n \n"),
        "Permission denied"
    );
    assert_eq!(ssh_complaint("\n"), "SSH command failed");
    assert_eq!(
        fetched(Outcome::Failed("x\n".into())).unwrap_err(),
        "x"
    );
    assert_eq!(
        fetched(Outcome::Broken("no such program".into())).unwrap_err(),
        "no such program"
    );
    assert_eq!(fetched(Outcome::TimedOut).unwrap_err(), "SSH timed out");
    assert_eq!(
        fetched(Outcome::Printed(vec![])).unwrap_err(),
        "invalid snapshot response"
    );
    assert_eq!(
        fetched(Outcome::Printed(vec![Some(empty_snapshot("dev"))]))
            .unwrap()
            .host,
        "dev"
    );
}

#[test]
fn results_are_sorted_by_host() {
    let (snapshots, errors) = collect(vec![
        ("b".into(), Ok(empty_snapshot("b"))),
        ("a".into(), Err("down".into())),
        ("c".into(), Ok(empty_snapshot("c"))),
    ]);
    assert_eq!(snapshots.keys(), vec!["b", "c"]);
    assert_eq!(errors.get("a").unwrap(), "down");
    assert_eq!(errors.len(), 1);
}

#[test]
fn the_status_line_tells_the_time() {
    assert_eq!(
        status_line_at("2026-08-07T10:00:00Z"),
        "Updated 2026-08-07T10:00:00Z · Ctrl+C to stop"
    );
    let line = status_line();
    assert!(line.starts_with("Updated 2"));
    assert!(line.ends_with("Z · Ctrl+C to stop"));
}
