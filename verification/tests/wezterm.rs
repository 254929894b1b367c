use llm_watch::wezterm::{
    activate_arguments, focus_host, list_arguments, tab_id_for_host, Focus, FocusAction, FocusEvent,
};

/// Trimmed from real `wezterm cli list --format json` output: the local `bl`
/// tab, three devbox tabs, a gap where `coder.dev-eu`'s tab was closed, and a
/// hand-opened tab with no title.
const LIST: &str = r#"[
  {"window_id":0,"tab_id":0,"pane_id":0,"title":"Tajs-MacBook-Pro","tab_title":"bl"},
  {"window_id":0,"tab_id":1,"pane_id":1,"title":"dev2","tab_title":"coder.dev2"},
  {"window_id":0,"tab_id":2,"pane_id":2,"title":"dev3","tab_title":"coder.dev3"},
  {"window_id":0,"tab_id":2,"pane_id":4,"title":"dev3 pane 2","tab_title":"coder.dev3"},
  {"window_id":0,"tab_id":3,"pane_id":3,"title":"lsr-dash","tab_title":"coder.lsr-dash"},
  {"window_id":0,"tab_id":5,"pane_id":6,"title":"zsh","tab_title":""}
]"#;

#[test]
fn a_devbox_tab_is_found_by_its_title() {
    assert_eq!(tab_id_for_host(LIST, "coder.dev3"), Some(2));
    assert_eq!(tab_id_for_host(LIST, "coder.lsr-dash"), Some(3));
    // Ids are sparse once a tab is closed, so position must not be assumed.
    assert_eq!(tab_id_for_host(LIST, "coder.dev2"), Some(1));
}

#[test]
fn a_host_with_no_tab_is_not_matched() {
    // coder.dev-eu is configured in wezterm.lua but its tab was closed.
    assert_eq!(tab_id_for_host(LIST, "coder.dev-eu"), None);
}

#[test]
fn untitled_and_local_tabs_are_never_matched() {
    // The hand-opened tab has an empty title; an empty host must not claim it.
    assert_eq!(tab_id_for_host(LIST, ""), None);
    // The local tab is titled, but not with a host alias.
    assert_eq!(tab_id_for_host(LIST, "Tajs-MacBook-Pro"), None);
}

#[test]
fn malformed_output_is_tolerated() {
    for text in ["", "not json", "{}", "[]", "[1,2,3]", "[{\"tab_id\":1}]"] {
        assert_eq!(tab_id_for_host(text, "coder.dev3"), None);
    }
}

#[test]
fn a_tab_is_brought_up_step_by_step() {
    let host = "coder.dev3";
    assert_eq!(focus_host(host, &FocusEvent::Probed(true)), FocusAction::List);
    assert_eq!(
        focus_host(host, &FocusEvent::Listed(Some(LIST.to_owned()))),
        FocusAction::Activate(2)
    );
    assert_eq!(focus_host(host, &FocusEvent::Asked(true)), FocusAction::Raise);
}

#[test]
fn every_way_to_fail_is_told_apart() {
    let host = "coder.dev-eu";
    assert_eq!(
        focus_host(host, &FocusEvent::Probed(false)),
        FocusAction::GiveUp(Focus::NotInstalled)
    );
    assert_eq!(
        focus_host(host, &FocusEvent::Listed(None)),
        FocusAction::GiveUp(Focus::NotRunning)
    );
    assert_eq!(
        focus_host(host, &FocusEvent::Listed(Some(LIST.to_owned()))),
        FocusAction::GiveUp(Focus::NoTab)
    );
    assert_eq!(
        focus_host(host, &FocusEvent::Asked(false)),
        FocusAction::GiveUp(Focus::NotRunning)
    );
}

#[test]
fn outcomes_have_their_wire_values() {
    assert_eq!(Focus::Activated.status(), "activated");
    assert_eq!(Focus::NoTab.status(), "no_tab");
    assert_eq!(Focus::NotRunning.status(), "not_running");
    assert_eq!(Focus::NotInstalled.status(), "not_installed");
}

#[test]
fn the_command_line_names_the_tab() {
    assert_eq!(list_arguments(), vec!["cli", "list", "--format", "json"]);
    assert_eq!(
        activate_arguments(12),
        vec!["cli", "activate-tab", "--tab-id", "12"]
    );
    assert_eq!(activate_arguments(-3)[3], "-3");
    assert_eq!(activate_arguments(i64::MIN)[3], "-9223372036854775808");
}
