use llm_watch::config::ConfigError;
use llm_watch::labels::{labels_path, read_labels, sanitize, set_label, LABEL_LIMIT};

#[test]
fn labels_round_trip_and_ignore_junk() {
    let content = "# heading\ncoder.dev2 = payments train\nbroken line\n  = orphan\ncoder.dev3=  \n";

    let labels = read_labels(content);
    assert_eq!(labels.len(), 1);
    assert_eq!(labels.get("coder.dev2").unwrap(), "payments train");

    let edit = set_label(content, "coder.dev3", "  render   tree  ")
        .ok()
        .unwrap();
    let labels = read_labels(&edit.content);
    assert_eq!(
        labels.get("coder.dev2").unwrap(),
        "payments train",
        "other hosts kept"
    );
    assert_eq!(
        labels.get("coder.dev3").unwrap(),
        "render tree",
        "whitespace collapsed"
    );

    // An empty label clears just that host.
    let edit = set_label(&edit.content, "coder.dev2", "").ok().unwrap();
    let labels = read_labels(&edit.content);
    assert!(!labels.contains("coder.dev2"));
    assert_eq!(labels.get("coder.dev3").unwrap(), "render tree");
}

#[test]
fn a_label_cannot_break_the_line_format() {
    // `#` would comment out the rest, and a newline would forge a second entry.
    let edit = set_label("", "coder.dev2", "urgent # coder.dev3 = hijacked\nx")
        .ok()
        .unwrap();
    let labels = read_labels(&edit.content);
    assert_eq!(labels.len(), 1);
    assert_eq!(
        labels.get("coder.dev2").unwrap(),
        "urgent coder.dev3 = hijacked x"
    );
}

#[test]
fn long_labels_are_truncated() {
    assert_eq!(sanitize(&"a".repeat(200)).chars().count(), LABEL_LIMIT);
    assert!(set_label("", "", "x").is_err());
}

#[test]
fn the_labels_file_is_exact() {
    let edit = set_label("coder.b = two\n", "coder.a", "one").ok().unwrap();
    assert_eq!(edit.label, "one");
    assert_eq!(
        edit.content,
        "# Work-stream labels for the llm-watch dashboard.\n\
         # One `host = label` per line; `#` starts a comment.\n\
         # Edited in place by the web dashboard.\n\
         coder.a = one\n\
         coder.b = two\n"
    );
}

#[test]
fn a_blank_host_has_no_label() {
    let refused = set_label("", "  ", "x");
    assert!(matches!(refused, Err(ConfigError::EmptyHost)));
}

#[test]
fn a_stored_label_is_stored_again_as_it_is() {
    let once = sanitize("  a\tlong # label\r\nover lines  ");
    assert_eq!(once, "a long label over lines");
    assert_eq!(sanitize(&once), once);
    let cut = sanitize(&"ab ".repeat(40));
    assert_eq!(sanitize(&cut), cut);
}

#[test]
fn the_last_label_of_a_host_counts() {
    let labels = read_labels("a = one\na = two # done\n");
    assert_eq!(labels.get("a").unwrap(), "two");
}

#[test]
fn labels_lie_in_the_settings() {
    assert_eq!(labels_path("/c"), "/c/labels");
}
