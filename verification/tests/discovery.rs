use llm_watch::discovery::{
    coder_hosts, coder_hosts_from_json, discover_hosts, expand_pattern, has_wildcard, include_path,
    is_ignored, no_hosts_message, parse_ssh_file, resolve_hosts, SshWalk,
};
use llm_watch::glob::wildcard_matches;
use llm_watch::json;

fn owned(names: &[&str]) -> Vec<String> {
    names.iter().map(|name| (*name).to_owned()).collect()
}

#[test]
fn running_dev_workspaces_become_coder_aliases() {
    let workspaces = json::read(
        r#"[
            {"name": "dev2", "latest_build": {"status": "running"}},
            {"name": "dev-eu", "latest_build": {"status": "running"}},
            {"name": "dev-old", "latest_build": {"status": "stopped"}},
            {"name": "experiment", "latest_build": {"status": "running"}}
        ]"#,
    )
    .unwrap();
    assert_eq!(
        coder_hosts_from_json(&workspaces),
        vec!["coder.dev-eu".to_owned(), "coder.dev2".to_owned()]
    );
}

#[test]
fn explicit_and_included_hosts_are_discovered() {
    let included = parse_ssh_file("Host dev-web\n");
    let config = parse_ssh_file("Include conf.d/*\nHost dev-api coder.dev-eu\nHost dev*\n");
    assert_eq!(config.includes, vec!["conf.d/*"]);
    let pattern = include_path(&config.includes[0], "/root", "/home/u");
    assert_eq!(pattern, "/root/conf.d/*");
    assert!(has_wildcard(&pattern));
    assert_eq!(expand_pattern("*", &owned(&["work"])), vec!["work"]);

    let mut ssh = config.hosts;
    ssh.extend(included.hosts);
    let hosts = discover_hosts(
        Some("coder.dev-eu\ndev-ops\n"),
        &ssh,
        &Vec::new(),
        Some("# nothing ignored\n"),
    );
    assert_eq!(hosts, vec!["coder.dev-eu", "dev-api", "dev-ops", "dev-web"]);
}

#[test]
fn ignored_hosts_are_dropped_from_every_discovery_source() {
    // coder.dev-eu arrives from the hosts file, dev-web and dev-api from ssh config.
    let ssh = parse_ssh_file("Host dev-api dev-web\n").hosts;
    let hosts = discover_hosts(
        Some("coder.dev-eu\ndev-ops\n"),
        &ssh,
        &Vec::new(),
        Some("# retired\ncoder.dev-eu\ndev-w*\n\n  dev-api  # trailing comment\n"),
    );
    assert_eq!(hosts, vec!["dev-ops"]);
}

#[test]
fn ignore_matching_is_literal_unless_a_glob_is_used() {
    let patterns = vec!["coder.dev-eu".to_owned(), "lab-*".to_owned()];
    assert!(is_ignored("coder.dev-eu", &patterns));
    assert!(is_ignored("CODER.DEV-EU", &patterns));
    assert!(is_ignored("lab-01", &patterns));
    // A literal entry must not behave like a prefix.
    assert!(!is_ignored("coder.dev-eu-2", &patterns));
    assert!(!is_ignored("coder.dev2", &patterns));
    assert!(!is_ignored("dev-lab-01", &patterns));
    assert!(!is_ignored("anything", &Vec::new()));
}

#[test]
fn workspaces_without_the_expected_shape_are_skipped() {
    for text in ["{}", "7", "[]", "[1, {\"name\": \"dev1\"}]"] {
        assert!(coder_hosts_from_json(&json::read(text).unwrap()).is_empty());
    }
    let shouting = br#"[{"name": "dev1", "latest_build": {"status": "RUNNING"}}]"#;
    assert_eq!(coder_hosts(shouting), vec!["coder.dev1"]);
    assert!(coder_hosts(b"not json").is_empty());
    assert!(coder_hosts(b"\xff\xfe").is_empty());
}

#[test]
fn coder_hosts_are_ignored_and_sorted_with_the_rest() {
    let hosts = discover_hosts(
        None,
        &owned(&["dev-b", "dev-a", "dev-b"]),
        &owned(&["coder.dev1"]),
        None,
    );
    assert_eq!(hosts, vec!["coder.dev1", "dev-a", "dev-b"]);
}

#[test]
fn only_plain_dev_names_count_as_hosts() {
    let file = parse_ssh_file(
        "# Host dev-commented\n  hOsT !dev-no dev-[ab] dev? web dev-yes\nHostName dev-x\nHost\nInclude ~/a b\n",
    );
    assert_eq!(file.hosts, vec!["dev-yes"]);
    assert_eq!(file.includes, vec!["~/a", "b"]);
}

#[test]
fn included_files_are_found_from_the_including_file() {
    assert_eq!(include_path("work", "/home/u/.ssh", "/home/u"), "/home/u/.ssh/work");
    assert_eq!(include_path("/etc/ssh/more", "/home/u/.ssh", "/home/u"), "/etc/ssh/more");
    assert_eq!(include_path("~/more", "/home/u/.ssh", "/home/u"), "/home/u/more");
    assert!(!has_wildcard("/home/u/more"));
    assert_eq!(
        expand_pattern("w?rk*", &owned(&["work2", "work", "wrk", "other"])),
        vec!["work", "work2"]
    );
}

#[test]
fn a_file_that_includes_itself_is_read_once() {
    let mut walk = SshWalk::new("/config");
    let mut read = 0;
    while let Some(path) = walk.next() {
        if !walk.enter(&path) {
            continue;
        }
        read += 1;
        let file = parse_ssh_file("Include /config /other\nHost dev-a\n");
        walk.note(&file);
        for pattern in &file.includes {
            walk.follow(include_path(pattern, "/", "/home/u"));
        }
    }
    assert_eq!(read, 2);
    assert_eq!(walk.into_hosts(), vec!["dev-a", "dev-a"]);
}

#[test]
fn explicit_hosts_win_and_bypass_the_ignore_list() {
    let explicit = owned(&["b", "a", "b"]);
    let found = owned(&["c"]);
    assert_eq!(resolve_hosts(&explicit, &found).unwrap(), vec!["a", "b"]);
    assert_eq!(resolve_hosts(&Vec::new(), &found).unwrap(), vec!["c"]);
    assert!(resolve_hosts(&Vec::new(), &Vec::new()).is_none());
    assert_eq!(
        no_hosts_message("/c"),
        "No dev* SSH aliases found. Add hosts to /c/hosts."
    );
}

#[test]
fn globs_match_whole_names() {
    assert!(wildcard_matches("*", ""));
    assert!(wildcard_matches("a*b*c", "aXbYbZc"));
    assert!(!wildcard_matches("a*b*c", "aXbYbZ"));
    assert!(wildcard_matches("?b", "ab"));
    assert!(!wildcard_matches("?", ""));
    assert!(wildcard_matches("a**", "a"));
    assert!(wildcard_matches("*dev", "dev*dev"));
    assert!(wildcard_matches("*é", "café"));
    // A star in a name is a character like any other.
    assert!(wildcard_matches("*b", "*ab"));
}
