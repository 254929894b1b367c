//! Raise the local WezTerm window on the tab that belongs to a devbox.
//!
//! The dashboard runs on the same laptop as the terminal, so a card can jump you straight to
//! the tab instead of leaving you to hunt for it. Tabs are matched by their explicit title,
//! which is exactly the SSH alias that the dashboard keys hosts by.
use vstd::prelude::*;

use crate::json;
use crate::json::{Json, Node, Tree, TreeNode};
use crate::number;
use crate::number::decimal_text;
use crate::split;
use crate::text::same;

verus! {

/// What happened, so the page can say something specific.
#[derive(Clone, Copy, Debug, PartialEq, Eq, Structural)]
pub enum Focus {
    Activated,
    /// WezTerm is up but nothing is titled with that alias.
    NoTab,
    /// No window to talk to: not running, or its socket is gone.
    NotRunning,
    NotInstalled,
}

impl Focus {
    pub open spec fn word(self) -> Seq<char> {
        match self {
            Focus::Activated => "activated"@,
            Focus::NoTab => "no_tab"@,
            Focus::NotRunning => "not_running"@,
            Focus::NotInstalled => "not_installed"@,
        }
    }

    /// The wire value the page switches on.
    pub fn status(self) -> (r: &'static str)
        ensures
            r@ == self.word(),
    {
        match self {
            Focus::Activated => "activated",
            Focus::NoTab => "no_tab",
            Focus::NotRunning => "not_running",
            Focus::NotInstalled => "not_installed",
        }
    }
}

/// The first of the panes whose tab has that title.
pub open spec fn titled(panes: Seq<Tree>, title: Seq<char>) -> Option<Tree>
    decreases panes.len(),
{
    if panes.len() == 0 {
        None
    } else if panes[0].text_at("tab_title"@) == Some(title) {
        Some(panes[0])
    } else {
        titled(panes.drop_first(), title)
    }
}

/// The tab of that title in a list of panes.
pub open spec fn tab_in(list: Tree, host: Seq<char>) -> Option<i64> {
    match list.node {
        TreeNode::Array(panes) if host.len() > 0 => match titled(panes, host) {
            Some(pane) => match pane.get("tab_id"@) {
                Some(id) => match id.node {
                    TreeNode::Number(n) => n,
                    _ => None,
                },
                None => None,
            },
            None => None,
        },
        _ => None,
    }
}

/// The tab of that title in a text that lists the panes.
pub open spec fn tab_for(listed: Seq<char>, host: Seq<char>) -> Option<i64> {
    match json::parsed(listed) {
        Some(list) => tab_in(list, host),
        None => None,
    }
}

/// Picks the tab whose explicit title matches the alias. An empty alias claims no tab. Ids
/// are stable but indices drift as tabs open and close, so the id is the only safe handle.
pub fn tab_id_in(list: &Json, host: &str) -> (r: Option<i64>)
    ensures
        r == tab_in(list@, host@),
{
    if host.is_empty() {
        return None;
    }
    let panes = match list.items() {
        Some(panes) => panes,
        None => return None,
    };
    let ghost all = json::trees(panes@);
    let mut i: usize = 0;
    assert(all.skip(0) =~= all);
    while i < panes.len()
        invariant
            host@.len() > 0,
            i <= panes@.len(),
            all == json::trees(panes@),
            list@.node == TreeNode::Array(all),
            titled(all, host@) == titled(all.skip(i as int), host@),
        decreases panes@.len() - i,
    {
        let pane = &panes[i];
        proof {
            assert(all.skip(i as int)[0] == pane@);
            assert(all.skip(i as int).drop_first() =~= all.skip(i + 1));
        }
        if let Some(title) = pane.text_at("tab_title") {
            if same(title.as_str(), host) {
                return match pane.get("tab_id") {
                    Some(id) => match &id.node {
                        Node::Number(n) => *n,
                        _ => None,
                    },
                    None => None,
                };
            }
        }
        i += 1;
    }
    None
}

/// Picks the tab whose explicit title matches the alias from the text that lists the panes.
pub fn tab_id_for_host(list_json: &str, host: &str) -> (r: Option<i64>)
    ensures
        r == tab_for(list_json@, host@),
{
    match json::read(list_json) {
        Ok(list) => tab_id_in(&list, host),
        Err(_) => None,
    }
}

/// What has come of the last thing that was done.
pub enum FocusEvent {
    /// It is known whether WezTerm is installed.
    Probed(bool),
    /// The panes have been asked for; what was printed, if there was a window to ask.
    Listed(Option<String>),
    /// The tab has been asked to come up; whether that went well.
    Asked(bool),
}

/// What to do next.
#[derive(Clone, Copy, Debug, PartialEq, Eq, Structural)]
pub enum FocusAction {
    /// Ask for the panes.
    List,
    /// Ask the tab of that id to come up.
    Activate(i64),
    /// Raise the window; the tab is up.
    Raise,
    /// Nothing: the tab cannot be brought up.
    GiveUp(Focus),
}

/// A tab is brought up only if it carries the alias. Nothing is ever spawned.
pub open spec fn next_action(host: Seq<char>, event: FocusEvent) -> FocusAction {
    match event {
        FocusEvent::Probed(installed) => if installed {
            FocusAction::List
        } else {
            FocusAction::GiveUp(Focus::NotInstalled)
        },
        FocusEvent::Listed(printed) => match printed {
            Some(listed) => match tab_for(listed@, host) {
                Some(id) => FocusAction::Activate(id),
                None => FocusAction::GiveUp(Focus::NoTab),
            },
            None => FocusAction::GiveUp(Focus::NotRunning),
        },
        FocusEvent::Asked(done) => if done {
            FocusAction::Raise
        } else {
            FocusAction::GiveUp(Focus::NotRunning)
        },
    }
}

/// What to do next to bring up the tab of a host.
pub fn focus_host(host: &str, event: &FocusEvent) -> (r: FocusAction)
    ensures
        r == next_action(host@, *event),
{
    match event {
        FocusEvent::Probed(installed) => if *installed {
            FocusAction::List
        } else {
            FocusAction::GiveUp(Focus::NotInstalled)
        },
        FocusEvent::Listed(printed) => match printed {
            Some(listed) => match tab_id_for_host(listed.as_str(), host) {
                Some(id) => FocusAction::Activate(id),
                None => FocusAction::GiveUp(Focus::NoTab),
            },
            None => FocusAction::GiveUp(Focus::NotRunning),
        },
        FocusEvent::Asked(done) => if *done {
            FocusAction::Raise
        } else {
            FocusAction::GiveUp(Focus::NotRunning)
        },
    }
}

/// A whole number in base ten.
pub open spec fn signed(n: int) -> Seq<char> {
    if n < 0 {
        "-"@ + number::decimal((-n) as nat)
    } else {
        number::decimal(n as nat)
    }
}

fn signed_text(n: i64) -> (r: String)
    ensures
        r@ == signed(n as int),
{
    if n < 0 {
        let mut out = "-".to_owned();
        let size: i128 = -(n as i128);
        out.append(decimal_text(size as u128).as_str());
        out
    } else {
        decimal_text(n as u128)
    }
}

/// The arguments for `wezterm` that ask for the panes.
pub fn list_arguments() -> (r: Vec<String>)
    ensures
        split::texts(r@) == seq!["cli"@, "list"@, "--format"@, "json"@],
{
    let words = vec!["cli".to_owned(), "list".to_owned(), "--format".to_owned(), "json".to_owned()];
    assert(split::texts(words@) =~= seq!["cli"@, "list"@, "--format"@, "json"@]);
    words
}

/// The arguments for `wezterm` that ask a tab to come up.
pub fn activate_arguments(id: i64) -> (r: Vec<String>)
    ensures
        split::texts(r@) == seq!["cli"@, "activate-tab"@, "--tab-id"@, signed(id as int)],
{
    let words = vec![
        "cli".to_owned(),
        "activate-tab".to_owned(),
        "--tab-id".to_owned(),
        signed_text(id),
    ];
    assert(split::texts(words@) =~= seq![
        "cli"@,
        "activate-tab"@,
        "--tab-id"@,
        signed(id as int),
    ]);
    words
}

/// The tab that is picked belongs to a pane whose tab carries the alias, which is not empty.
pub proof fn lemma_only_titled_tabs(list: Tree, host: Seq<char>)
    ensures
        tab_in(list, host) matches Some(id) ==> host.len() > 0 && list.node is Array && exists|
            i: int,
        |
            0 <= i < list.node->Array_0.len() && (#[trigger] list.node->Array_0[i]).text_at(
                "tab_title"@,
            ) == Some(host) && list.node->Array_0[i].get("tab_id"@) is Some && list.node->Array_0[
                i
            ].get("tab_id"@)->Some_0.node == TreeNode::Number(Some(id)),
{
    if let TreeNode::Array(panes) = list.node {
        lemma_titled(panes, host);
    }
}

proof fn lemma_titled(panes: Seq<Tree>, title: Seq<char>)
    ensures
        titled(panes, title) matches Some(pane) ==> exists|i: int|
            0 <= i < panes.len() && #[trigger] panes[i] == pane && pane.text_at("tab_title"@)
                == Some(title),
    decreases panes.len(),
{
    if panes.len() > 0 && panes[0].text_at("tab_title"@) != Some(title) {
        let rest = panes.drop_first();
        lemma_titled(rest, title);
        if let Some(pane) = titled(rest, title) {
            let i = choose|i: int|
                0 <= i < rest.len() && #[trigger] rest[i] == pane && pane.text_at("tab_title"@)
                    == Some(title);
            assert(panes[i + 1] == pane);
        }
    }
}

/// The first pane whose tab carries the alias gives the tab, wherever in the list it stands.
pub proof fn lemma_first_titled_tab(list: Tree, host: Seq<char>, panes: Seq<Tree>, i: int)
    requires
        host.len() > 0,
        list.node == TreeNode::Array(panes),
        0 <= i < panes.len(),
        panes[i].text_at("tab_title"@) == Some(host),
        forall|j: int| 0 <= j < i ==> (#[trigger] panes[j]).text_at("tab_title"@) != Some(host),
    ensures
        tab_in(list, host) == match panes[i].get("tab_id"@) {
            Some(id) => match id.node {
                TreeNode::Number(n) => n,
                _ => None,
            },
            None => None,
        },
{
    lemma_titled_at(panes, host, i);
}

proof fn lemma_titled_at(panes: Seq<Tree>, title: Seq<char>, i: int)
    requires
        0 <= i < panes.len(),
        panes[i].text_at("tab_title"@) == Some(title),
        forall|j: int| 0 <= j < i ==> (#[trigger] panes[j]).text_at("tab_title"@) != Some(title),
    ensures
        titled(panes, title) == Some(panes[i]),
    decreases panes.len(),
{
    if i > 0 {
        let rest = panes.drop_first();
        assert(panes[0].text_at("tab_title"@) != Some(title));
        assert forall|j: int| 0 <= j < i - 1 implies (#[trigger] rest[j]).text_at("tab_title"@)
            != Some(title) by {
            assert(rest[j] == panes[j + 1]);
        }
        lemma_titled_at(rest, title, i - 1);
    }
}

/// A tab is brought up step by step: a program that is there is asked for its panes, the tab of
/// the alias is asked to come up, and then its window is raised. Where a step fails, that is
/// what is told.
pub proof fn lemma_steps(host: Seq<char>, listed: String, id: i64)
    ensures
        next_action(host, FocusEvent::Probed(true)) == FocusAction::List,
        next_action(host, FocusEvent::Probed(false)) == FocusAction::GiveUp(Focus::NotInstalled),
        next_action(host, FocusEvent::Listed(None)) == FocusAction::GiveUp(Focus::NotRunning),
        tab_for(listed@, host) == Some(id) ==> next_action(host, FocusEvent::Listed(Some(listed)))
            == FocusAction::Activate(id),
        tab_for(listed@, host) is None ==> next_action(host, FocusEvent::Listed(Some(listed)))
            == FocusAction::GiveUp(Focus::NoTab),
        next_action(host, FocusEvent::Asked(true)) == FocusAction::Raise,
        next_action(host, FocusEvent::Asked(false)) == FocusAction::GiveUp(Focus::NotRunning),
        json::parsed(listed@) is None ==> tab_for(listed@, host) is None,
        json::parsed(listed@) matches Some(list) ==> tab_for(listed@, host) == tab_in(list, host),
{
}

/// A tab is asked for by its number as it is: the digits of its value, with a `-` in front of a
/// negative one.
pub proof fn lemma_signed(n: nat)
    ensures
        signed(n as int) == number::decimal(n),
        n > 0 ==> signed(-(n as int)) == "-"@ + number::decimal(n),
{
}

} // verus!
