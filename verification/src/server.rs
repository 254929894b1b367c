//! The state behind the web dashboard, and the edits that its pages make.
use vstd::prelude::*;

use crate::config::ConfigError;
use crate::http::Refusal;
use crate::labels;
use crate::labels::{sanitize, set_label};
use crate::model::{Link, LinkView, RunRecord, RunView, Snapshot, SCHEMA_VERSION};
use crate::prs;
use crate::prs::{add_pr, remove_pr, PrView, PullRequest, PR_LIMIT};
use crate::split;
use crate::table::{Duplicate, Table};
use crate::text;
use crate::text::same;
use crate::time;
use crate::time::utc_now;

verus! {

/// How the web dashboard is run.
pub struct ServeOptions {
    pub hosts: Vec<String>,
    pub bind: String,
    pub port: u16,
    pub interval: core::time::Duration,
    pub timeout: core::time::Duration,
    pub events: usize,
    pub notify: bool,
    pub open: bool,
}

// ---------------------------------------------------------------------------
// The state
// ---------------------------------------------------------------------------

/// What the pages show of one host.
pub struct HostView {
    pub host: String,
    /// Free-text work-stream marker from the labels file.
    pub label: String,
    /// GitHub pull requests attached to this devbox.
    pub prs: Vec<PullRequest>,
    /// The host was read in this poll.
    pub reachable: bool,
    /// The rows come from the last known snapshot instead of this poll.
    pub stale: bool,
    pub error: Option<String>,
    pub observed_at: Option<String>,
    pub runs: Vec<RunRecord>,
    /// Web pages that this devbox is currently serving.
    pub links: Vec<Link>,
}

/// What a value of `HostView` says.
pub struct HostModel {
    pub host: Seq<char>,
    pub label: Seq<char>,
    pub prs: Seq<PrView>,
    pub reachable: bool,
    pub stale: bool,
    pub error: Option<Seq<char>>,
    pub observed_at: Option<Seq<char>>,
    pub runs: Seq<RunView>,
    pub links: Seq<LinkView>,
}

impl DeepView for HostView {
    type V = HostModel;

    open spec fn deep_view(&self) -> HostModel {
        HostModel {
            host: self.host@,
            label: self.label@,
            prs: self.prs.deep_view(),
            reachable: self.reachable,
            stale: self.stale,
            error: text::optional(self.error),
            observed_at: text::optional(self.observed_at),
            runs: self.runs.deep_view(),
            links: self.links.deep_view(),
        }
    }
}

/// What the pages show.
pub struct StateView {
    pub schema_version: u32,
    pub generated_at: String,
    pub hosts: Vec<HostView>,
}

/// What a value of `StateView` says.
pub struct StateModel {
    pub schema_version: u32,
    pub generated_at: Seq<char>,
    pub hosts: Seq<HostModel>,
}

impl DeepView for StateView {
    type V = StateModel;

    open spec fn deep_view(&self) -> StateModel {
        StateModel {
            schema_version: self.schema_version,
            generated_at: self.generated_at@,
            hosts: self.hosts.deep_view(),
        }
    }
}

/// What a poll has brought, with the user's own marks.
pub struct Poll {
    /// The snapshots of this poll.
    pub snapshots: Table<Snapshot>,
    /// The snapshots to show: of this poll, or the last known.
    pub displayed: Table<Snapshot>,
    pub errors: Table<String>,
    pub labels: Table<String>,
    pub prs: Table<Vec<PullRequest>>,
}

pub open spec fn label_in(all: Map<Seq<char>, Seq<char>>, host: Seq<char>) -> Seq<char> {
    if all.dom().contains(host) {
        all[host]
    } else {
        Seq::empty()
    }
}

/// What a poll shows of a host. The rows of a host that was not reached are its last known
/// ones. Its links are not shown: only a live poll proves that they still work. Its pull
/// requests are, as they are the user's own.
pub open spec fn shown_of(poll: Poll, host: Seq<char>) -> HostModel {
    let fresh = poll.snapshots@.dom().contains(host);
    let known = poll.displayed@.dom().contains(host);
    HostModel {
        host,
        label: label_in(poll.labels@, host),
        prs: prs::list_of(poll.prs@, host),
        reachable: fresh,
        stale: !fresh && known,
        error: if poll.errors@.dom().contains(host) {
            Some(poll.errors@[host])
        } else {
            None
        },
        observed_at: if known {
            Some(poll.displayed@[host].generated_at)
        } else {
            None
        },
        runs: if known {
            poll.displayed@[host].runs
        } else {
            Seq::empty()
        },
        links: if fresh {
            poll.snapshots@[host].links
        } else {
            Seq::empty()
        },
    }
}

/// What a poll shows, host by host.
pub open spec fn state_of(hosts: Seq<Seq<char>>, poll: Poll, generated_at: Seq<char>) -> StateModel {
    StateModel {
        schema_version: SCHEMA_VERSION,
        generated_at,
        hosts: Seq::new(hosts.len(), |i: int| shown_of(poll, hosts[i])),
    }
}

fn build_host(host: &String, poll: &Poll) -> (r: HostView)
    ensures
        r.deep_view() == shown_of(*poll, host@),
{
    let name = host.as_str();
    let label = match poll.labels.get(name) {
        Some(label) => label.clone(),
        None => String::new(),
    };
    let attached = match poll.prs.get(name) {
        Some(list) => list.duplicate(),
        None => Vec::new(),
    };
    assert(attached.deep_view() =~= prs::list_of(poll.prs@, host@));
    let error = match poll.errors.get(name) {
        Some(error) => Some(error.clone()),
        None => None,
    };
    let (known, observed_at, runs) = match poll.displayed.get(name) {
        Some(snapshot) => (true, Some(snapshot.generated_at.clone()), snapshot.runs.duplicate()),
        None => (false, None, Vec::new()),
    };
    assert(runs.deep_view() =~= shown_of(*poll, host@).runs);
    let (fresh, links) = match poll.snapshots.get(name) {
        Some(snapshot) => (true, snapshot.links.duplicate()),
        None => (false, Vec::new()),
    };
    assert(links.deep_view() =~= shown_of(*poll, host@).links);
    HostView {
        host: host.clone(),
        label,
        prs: attached,
        reachable: fresh,
        stale: !fresh && known,
        error,
        observed_at,
        runs,
        links,
    }
}

/// What a poll shows, made at a time.
pub fn build_state_at(hosts: &Vec<String>, poll: &Poll, generated_at: String) -> (r: StateView)
    ensures
        r.deep_view() == state_of(split::texts(hosts@), *poll, generated_at@),
{
    let ghost all = split::texts(hosts@);
    let mut out: Vec<HostView> = Vec::new();
    let mut i: usize = 0;
    while i < hosts.len()
        invariant
            i <= hosts@.len(),
            all == split::texts(hosts@),
            out@.len() == i,
            forall|j: int| 0 <= j < i ==> (#[trigger] out@[j]).deep_view() == shown_of(*poll, all[j]),
        decreases hosts@.len() - i,
    {
        out.push(build_host(&hosts[i], poll));
        i += 1;
    }
    assert(out.deep_view() =~= state_of(all, *poll, generated_at@).hosts);
    StateView { schema_version: SCHEMA_VERSION, generated_at, hosts: out }
}

/// What a poll shows.
pub fn build_state(hosts: &Vec<String>, poll: &Poll) -> (r: StateView)
    ensures
        exists|at: time::Timestamp|
            #![trigger at.valid()]
            at.valid() && at.seconds >= 0 && r.deep_view() == state_of(
                split::texts(hosts@),
                *poll,
                time::rfc3339(at.seconds, at.nanos),
            ),
{
    build_state_at(hosts, poll, utc_now())
}

/// What is shown of a host before the first poll.
pub open spec fn unpolled(
    host: Seq<char>,
    labels: Map<Seq<char>, Seq<char>>,
    prs: Map<Seq<char>, Seq<PrView>>,
) -> HostModel {
    HostModel {
        host,
        label: label_in(labels, host),
        prs: prs::list_of(prs, host),
        reachable: false,
        stale: false,
        error: None,
        observed_at: None,
        runs: Seq::empty(),
        links: Seq::empty(),
    }
}

/// What is shown before the first poll: the hosts, with the user's own marks.
pub fn first_state(
    hosts: &Vec<String>,
    labels: Table<String>,
    prs: Table<Vec<PullRequest>>,
) -> (r: StateView)
    ensures
        r.schema_version == SCHEMA_VERSION,
        exists|at: time::Timestamp|
            #![trigger at.valid()]
            at.valid() && at.seconds >= 0 && r.generated_at@ == time::rfc3339(
                at.seconds,
                at.nanos,
            ),
        r.hosts.deep_view() == Seq::new(
            hosts@.len(),
            |i: int| unpolled(hosts@[i]@, labels@, prs@),
        ),
{
    let poll = Poll {
        snapshots: Table::new(),
        displayed: Table::new(),
        errors: Table::new(),
        labels,
        prs,
    };
    let state = build_state(hosts, &poll);
    assert(state.hosts.deep_view() =~= Seq::new(
        hosts@.len(),
        |i: int| unpolled(hosts@[i]@, labels@, prs@),
    ));
    state
}

/// A host that was not reached shows its last known sessions, marked stale, and no links;
/// its label and its pull requests stay.
pub proof fn lemma_unreachable_host(poll: Poll, host: Seq<char>)
    requires
        !poll.snapshots@.dom().contains(host),
    ensures
        !shown_of(poll, host).reachable,
        shown_of(poll, host).links == Seq::<LinkView>::empty(),
        shown_of(poll, host).stale == poll.displayed@.dom().contains(host),
        shown_of(poll, host).stale ==> shown_of(poll, host).runs == poll.displayed@[host].runs,
        !shown_of(poll, host).stale ==> shown_of(poll, host).runs == Seq::<RunView>::empty()
            && shown_of(poll, host).observed_at is None,
        shown_of(poll, host).prs == prs::list_of(poll.prs@, host),
        shown_of(poll, host).label == label_in(poll.labels@, host),
{
}

// ---------------------------------------------------------------------------
// What is published
// ---------------------------------------------------------------------------

/// The state that the pages see, with a version that moves on with every change.
pub struct Published {
    pub version: u64,
    /// Kept structured so a label edit can change it without waiting for the next poll.
    pub view: StateView,
}

/// What a value of `Published` says.
pub struct PublishedModel {
    pub version: u64,
    pub view: StateModel,
}

impl DeepView for Published {
    type V = PublishedModel;

    open spec fn deep_view(&self) -> PublishedModel {
        PublishedModel { version: self.version, view: self.view.deep_view() }
    }
}

/// Where a host stands in the list; the length of the list if it is not there.
pub open spec fn place_of(hosts: Seq<HostModel>, host: Seq<char>) -> nat
    decreases hosts.len(),
{
    if hosts.len() == 0 || hosts[0].host == host {
        0
    } else {
        1 + place_of(hosts.drop_first(), host)
    }
}

/// The host is one of the watched aliases.
pub open spec fn watched(state: StateModel, host: Seq<char>) -> bool {
    place_of(state.hosts, host) < state.hosts.len()
}

/// What is shown of a watched host.
pub open spec fn card(state: StateModel, host: Seq<char>) -> HostModel {
    state.hosts[place_of(state.hosts, host) as int]
}

/// The state with another card for a watched host.
pub open spec fn with_card(state: StateModel, host: Seq<char>, card: HostModel) -> StateModel {
    StateModel { hosts: state.hosts.update(place_of(state.hosts, host) as int, card), ..state }
}

/// The state with another label for a watched host.
pub open spec fn with_label(state: StateModel, host: Seq<char>, label: Seq<char>) -> StateModel {
    with_card(state, host, HostModel { label, ..card(state, host) })
}

/// The state with other pull requests for a watched host.
pub open spec fn with_prs(state: StateModel, host: Seq<char>, list: Seq<PrView>) -> StateModel {
    with_card(state, host, HostModel { prs: list, ..card(state, host) })
}

/// A further pull request fits on the card of a watched host, or is there already.
pub open spec fn takes_pr(state: StateModel, host: Seq<char>, url: Seq<char>) -> bool {
    watched(state, host) && (card(state, host).prs.len() < PR_LIMIT || prs::has_url(
        card(state, host).prs,
        url,
    ))
}

fn locate(hosts: &Vec<HostView>, host: &str) -> (n: usize)
    ensures
        n == place_of(hosts.deep_view(), host@),
        n <= hosts@.len(),
        n < hosts@.len() ==> hosts@[n as int].host@ == host@,
{
    let ghost all = hosts.deep_view();
    let mut n: usize = 0;
    assert(all.skip(0) =~= all);
    while n < hosts.len() && !same(hosts[n].host.as_str(), host)
        invariant
            n <= hosts@.len(),
            all == hosts.deep_view(),
            place_of(all, host@) == n + place_of(all.skip(n as int), host@),
        decreases hosts@.len() - n,
    {
        proof {
            assert(all.skip(n as int)[0] == hosts@[n as int].deep_view());
            assert(all.skip(n as int).drop_first() =~= all.skip(n + 1));
        }
        n += 1;
    }
    proof {
        if n < hosts@.len() {
            assert(all.skip(n as int)[0] == hosts@[n as int].deep_view());
        }
    }
    n
}

fn has_pr(list: &Vec<PullRequest>, url: &str) -> (r: bool)
    ensures
        r == prs::has_url(list.deep_view(), url@),
{
    let ghost all = list.deep_view();
    let mut i: usize = 0;
    while i < list.len()
        invariant
            i <= list@.len(),
            all == list.deep_view(),
            forall|j: int| 0 <= j < i ==> (#[trigger] all[j]).url != url@,
        decreases list@.len() - i,
    {
        assert(all[i as int] == list@[i as int].deep_view());
        if same(list[i].url.as_str(), url) {
            return true;
        }
        i += 1;
    }
    false
}

impl Published {
    /// The first state.
    pub fn new(view: StateView) -> (r: Self)
        ensures
            r.version == 1,
            r.view == view,
    {
        Published { version: 1, view }
    }

    /// Replaces the state.
    pub fn publish(&mut self, view: StateView)
        requires
            old(self).version < u64::MAX,
        ensures
            final(self).version == old(self).version + 1,
            final(self).view == view,
    {
        self.version = self.version + 1;
        self.view = view;
    }

    /// Changes the label of a host. Returns false, and changes nothing, when the host is not
    /// one of the watched aliases.
    pub fn apply_label(&mut self, host: &str, label: &str) -> (r: bool)
        requires
            old(self).version < u64::MAX,
        ensures
            r == watched(old(self).deep_view().view, host@),
            r ==> final(self).deep_view() == (PublishedModel {
                version: (old(self).version + 1) as u64,
                view: with_label(old(self).deep_view().view, host@, label@),
            }),
            !r ==> final(self).deep_view() == old(self).deep_view(),
    {
        let n: usize = locate(&self.view.hosts, host);
        if n == self.view.hosts.len() {
            return false;
        }
        let ghost before = self.deep_view();
        self.view.hosts[n].label = label.to_owned();
        self.version = self.version + 1;
        assert(self.deep_view().view.hosts =~= with_label(before.view, host@, label@).hosts);
        true
    }

    /// Replaces one host's attached pull requests. Returns false, and changes nothing, when
    /// the host is not one of the watched aliases.
    pub fn apply_prs(&mut self, host: &str, list: Vec<PullRequest>) -> (r: bool)
        requires
            old(self).version < u64::MAX,
        ensures
            r == watched(old(self).deep_view().view, host@),
            r ==> final(self).deep_view() == (PublishedModel {
                version: (old(self).version + 1) as u64,
                view: with_prs(old(self).deep_view().view, host@, list.deep_view()),
            }),
            !r ==> final(self).deep_view() == old(self).deep_view(),
    {
        let n: usize = locate(&self.view.hosts, host);
        if n == self.view.hosts.len() {
            return false;
        }
        let ghost before = self.deep_view();
        let ghost shown = list.deep_view();
        self.view.hosts[n].prs = list;
        self.version = self.version + 1;
        assert(self.deep_view().view.hosts =~= with_prs(before.view, host@, shown).hosts);
        true
    }

    /// False once a host is at the limit of its card. Adding a pull request it already
    /// carries changes nothing, rather than being one too many.
    pub fn accepts_pr(&self, host: &str, url: &str) -> (r: bool)
        ensures
            r == takes_pr(self.deep_view().view, host@, url@),
    {
        let n: usize = locate(&self.view.hosts, host);
        if n == self.view.hosts.len() {
            return false;
        }
        assert(card(self.deep_view().view, host@) == self.view.hosts@[n as int].deep_view());
        self.view.hosts[n].prs.len() < PR_LIMIT || has_pr(&self.view.hosts[n].prs, url)
    }

    /// True when the host is one of the watched aliases.
    pub fn is_watched(&self, host: &str) -> (r: bool)
        ensures
            r == watched(self.deep_view().view, host@),
    {
        locate(&self.view.hosts, host) < self.view.hosts.len()
    }

    /// Whether there is something new for one that has seen a version.
    pub fn moved_past(&self, version: u64) -> (r: bool)
        ensures
            r == (self.version != version),
    {
        self.version != version
    }
}

/// An edit of one card leaves every other card as it was.
pub proof fn lemma_other_cards_stay(state: StateModel, host: Seq<char>, new: HostModel, i: int)
    requires
        watched(state, host),
        0 <= i < state.hosts.len(),
        i != place_of(state.hosts, host),
    ensures
        with_card(state, host, new).hosts[i] == state.hosts[i],
        with_card(state, host, new).hosts.len() == state.hosts.len(),
{
}

proof fn lemma_place(hosts: Seq<HostModel>, host: Seq<char>)
    ensures
        place_of(hosts, host) <= hosts.len(),
        place_of(hosts, host) < hosts.len() ==> hosts[place_of(hosts, host) as int].host == host,
    decreases hosts.len(),
{
    if hosts.len() > 0 && hosts[0].host != host {
        lemma_place(hosts.drop_first(), host);
    }
}

/// What was set on the card of a watched host is what its card then shows.
pub proof fn lemma_edit_shows(
    state: StateModel,
    host: Seq<char>,
    label: Seq<char>,
    list: Seq<PrView>,
)
    requires
        watched(state, host),
    ensures
        watched(with_label(state, host, label), host),
        card(with_label(state, host, label), host).label == label,
        watched(with_prs(state, host, list), host),
        card(with_prs(state, host, list), host).prs == list,
{
    lemma_place(state.hosts, host);
    lemma_same_place(state.hosts, host, HostModel { label, ..card(state, host) });
    lemma_same_place(state.hosts, host, HostModel { prs: list, ..card(state, host) });
}

proof fn lemma_same_place(hosts: Seq<HostModel>, host: Seq<char>, new: HostModel)
    requires
        place_of(hosts, host) < hosts.len(),
        new.host == host,
    ensures
        place_of(hosts.update(place_of(hosts, host) as int, new), host) == place_of(hosts, host),
    decreases hosts.len(),
{
    let n = place_of(hosts, host) as int;
    let changed = hosts.update(n, new);
    if hosts[0].host != host {
        lemma_same_place(hosts.drop_first(), host, new);
        assert(changed.drop_first() =~= hosts.drop_first().update(n - 1, new));
        assert(changed[0] == hosts[0]);
    }
}

// ---------------------------------------------------------------------------
// Edits
// ---------------------------------------------------------------------------

pub struct LabelRequest {
    pub host: String,
    pub label: String,
}

pub struct FocusRequest {
    pub host: String,
}

pub struct PrRequest {
    pub host: String,
    pub url: String,
    /// `remove` detaches; anything else attaches.
    pub action: String,
}

/// What comes of a request for a label.
pub enum LabelStep {
    Refuse(Refusal),
    /// The content of the labels file to save, and the label as it is stored.
    Save(labels::LabelEdit),
}

/// What comes of a request for a pull request.
pub enum PrStep {
    Refuse(Refusal),
    /// The content of the file to save, and the list to show once that is done.
    Save(prs::PrEdit),
}

/// Sets a label. An unknown host is refused, so that a stray request cannot append to the
/// file. The pages see the label at once. `request` is what the body says, if it could be
/// read; `content` is what the labels file holds.
pub fn handle_label(
    published: &mut Published,
    request: Option<LabelRequest>,
    content: &str,
) -> (r: LabelStep)
    requires
        old(published).version < u64::MAX,
    ensures
        match request {
            None => r == LabelStep::Refuse(Refusal::BadLabel) && final(published).deep_view()
                == old(published).deep_view(),
            Some(request) => {
                let state = old(published).deep_view().view;
                let label = labels::sanitized(request.label@);
                let host = split::trim(request.host@);
                if !watched(state, request.host@) {
                    r == LabelStep::Refuse(Refusal::UnknownHost) && final(published).deep_view()
                        == old(published).deep_view()
                } else {
                    &&& final(published).deep_view() == (PublishedModel {
                        version: (old(published).version + 1) as u64,
                        view: with_label(state, request.host@, label),
                    })
                    &&& host.len() == 0 ==> r == LabelStep::Refuse(Refusal::LabelNotSaved)
                    &&& host.len() > 0 ==> (r matches LabelStep::Save(edit) && edit.label@ == label
                        && edit.content@ == labels::file_text(
                        labels::changed(labels::labels_in(content@), host, label),
                    ))
                }
            },
        },
{
    let request = match request {
        Some(request) => request,
        None => return LabelStep::Refuse(Refusal::BadLabel),
    };
    let label = sanitize(request.label.as_str());
    if !published.apply_label(request.host.as_str(), label.as_str()) {
        return LabelStep::Refuse(Refusal::UnknownHost);
    }
    proof {
        labels::lemma_sanitized_twice(request.label@);
    }
    match set_label(content, request.host.as_str(), label.as_str()) {
        Ok(edit) => LabelStep::Save(edit),
        Err(ConfigError::EmptyHost) => LabelStep::Refuse(Refusal::LabelNotSaved),
    }
}

/// What a request for a pull request leads to.
pub open spec fn pr_step(state: StateModel, request: PrRequest, content: Seq<char>, r: PrStep) -> bool {
    let host = split::trim(request.host@);
    let list = prs::list_of(prs::attached(content), host);
    let removing = request.action@ == "remove"@;
    if !watched(state, request.host@) {
        r == PrStep::Refuse(Refusal::UnknownHost)
    } else {
        match prs::named(request.url@) {
            None => r == PrStep::Refuse(Refusal::NotAPullRequest),
            Some(pr) => if !removing && !takes_pr(state, request.host@, pr.url) {
                r == PrStep::Refuse(Refusal::TooManyPullRequests)
            } else if host.len() == 0 {
                r == PrStep::Refuse(Refusal::PullRequestNotSaved)
            } else {
                let after = if removing {
                    prs::detach(list, pr.url)
                } else {
                    prs::attach(list, pr)
                };
                r matches PrStep::Save(edit) && edit.list.deep_view() == after && edit.content@
                    == prs::file_text(prs::changed(prs::attached(content), host, after))
            },
        }
    }
}

/// Attaches or detaches one pull request. `request` is what the body says, if it could be
/// read; `content` is what the file of attachments holds.
pub fn handle_pr(published: &Published, request: Option<&PrRequest>, content: &str) -> (r: PrStep)
    ensures
        match request {
            None => r == PrStep::Refuse(Refusal::BadPullRequest),
            Some(request) => pr_step(published.deep_view().view, *request, content@, r),
        },
{
    let request = match request {
        Some(request) => request,
        None => return PrStep::Refuse(Refusal::BadPullRequest),
    };
    let host = request.host.as_str();
    if !published.is_watched(host) {
        return PrStep::Refuse(Refusal::UnknownHost);
    }
    let pr = match prs::parse(request.url.as_str()) {
        Some(pr) => pr,
        None => return PrStep::Refuse(Refusal::NotAPullRequest),
    };
    let removing = same(request.action.as_str(), "remove");
    if !removing && !published.accepts_pr(host, pr.url.as_str()) {
        return PrStep::Refuse(Refusal::TooManyPullRequests);
    }
    let updated = if removing {
        remove_pr(content, host, &pr)
    } else {
        add_pr(content, host, &pr)
    };
    match updated {
        Ok(edit) => PrStep::Save(edit),
        Err(ConfigError::EmptyHost) => PrStep::Refuse(Refusal::PullRequestNotSaved),
    }
}

/// Whether a request to raise a terminal is refused. A host that is not on the dashboard
/// never reaches the shell.
pub fn handle_focus(published: &Published, request: Option<&FocusRequest>) -> (r: Option<Refusal>)
    ensures
        r == match request {
            None => Some(Refusal::BadFocus),
            Some(request) => if watched(published.deep_view().view, request.host@) {
                None
            } else {
                Some(Refusal::UnknownHost)
            },
        },
{
    match request {
        None => Some(Refusal::BadFocus),
        Some(request) => if published.is_watched(request.host.as_str()) {
            None
        } else {
            Some(Refusal::UnknownHost)
        },
    }
}

// ---------------------------------------------------------------------------
// What the pages see
// ---------------------------------------------------------------------------

/// Every watched host has its card, in the order in which the hosts are given. A card shows the
/// sessions and the time of the snapshot that is displayed for its host, whether the host was
/// reached or not; the links of a host that was reached; and the label, the pull requests and
/// the error that belong to the host.
pub proof fn lemma_every_host_has_its_card(
    hosts: Seq<Seq<char>>,
    poll: Poll,
    generated_at: Seq<char>,
    i: int,
)
    requires
        0 <= i < hosts.len(),
    ensures
        ({
            let state = state_of(hosts, poll, generated_at);
            let card = state.hosts[i];
            let host = hosts[i];
            let reached = poll.snapshots@.dom().contains(host);
            let displayed = poll.displayed@.dom().contains(host);
            &&& state.schema_version == 1
            &&& state.generated_at == generated_at
            &&& state.hosts.len() == hosts.len()
            &&& card.host == host
            &&& card.reachable == reached
            &&& card.stale == (displayed && !reached)
            &&& displayed ==> card.runs == poll.displayed@[host].runs && card.observed_at == Some(
                poll.displayed@[host].generated_at,
            )
            &&& !displayed ==> card.runs == Seq::<RunView>::empty() && card.observed_at is None
            &&& reached ==> card.links == poll.snapshots@[host].links
            &&& !reached ==> card.links == Seq::<LinkView>::empty()
            &&& poll.labels@.dom().contains(host) ==> card.label == poll.labels@[host]
            &&& !poll.labels@.dom().contains(host) ==> card.label == Seq::<char>::empty()
            &&& poll.prs@.dom().contains(host) ==> card.prs == poll.prs@[host]
            &&& !poll.prs@.dom().contains(host) ==> card.prs == Seq::<PrView>::empty()
            &&& poll.errors@.dom().contains(host) ==> card.error == Some(poll.errors@[host])
            &&& !poll.errors@.dom().contains(host) ==> card.error is None
        }),
{
}

/// Before the first poll a host shows its label and its pull requests, and nothing else.
pub proof fn lemma_first_card(
    host: Seq<char>,
    labels: Map<Seq<char>, Seq<char>>,
    prs: Map<Seq<char>, Seq<PrView>>,
)
    ensures
        ({
            let card = unpolled(host, labels, prs);
            &&& card.host == host
            &&& labels.dom().contains(host) ==> card.label == labels[host]
            &&& !labels.dom().contains(host) ==> card.label == Seq::<char>::empty()
            &&& prs.dom().contains(host) ==> card.prs == prs[host]
            &&& !prs.dom().contains(host) ==> card.prs == Seq::<PrView>::empty()
            &&& !card.reachable && !card.stale && card.error is None && card.observed_at is None
            &&& card.runs == Seq::<RunView>::empty() && card.links == Seq::<LinkView>::empty()
        }),
{
}

/// The card of the host is the first one of that name.
pub open spec fn is_first_card(state: StateModel, host: Seq<char>, i: int) -> bool {
    &&& 0 <= i < state.hosts.len()
    &&& state.hosts[i].host == host
    &&& forall|j: int| 0 <= j < i ==> (#[trigger] state.hosts[j]).host != host
}

proof fn lemma_place_at(hosts: Seq<HostModel>, host: Seq<char>, i: int)
    requires
        0 <= i < hosts.len(),
        hosts[i].host == host,
        forall|j: int| 0 <= j < i ==> (#[trigger] hosts[j]).host != host,
    ensures
        place_of(hosts, host) == i,
    decreases hosts.len(),
{
    if i > 0 {
        let rest = hosts.drop_first();
        assert(hosts[0].host != host);
        assert forall|j: int| 0 <= j < i - 1 implies (#[trigger] rest[j]).host != host by {
            assert(rest[j] == hosts[j + 1]);
        }
        lemma_place_at(rest, host, i - 1);
    }
}

/// An edit of a host's label or pull requests changes that and nothing else: not the rest of
/// its card, not the other cards, and not the time of the state.
pub proof fn lemma_edit_changes_nothing_else(
    state: StateModel,
    host: Seq<char>,
    i: int,
    label: Seq<char>,
    list: Seq<PrView>,
)
    requires
        is_first_card(state, host, i),
    ensures
        watched(state, host),
        card(state, host) == state.hosts[i],
        with_label(state, host, label) == (StateModel {
            hosts: state.hosts.update(i, HostModel { label, ..state.hosts[i] }),
            ..state
        }),
        with_prs(state, host, list) == (StateModel {
            hosts: state.hosts.update(i, HostModel { prs: list, ..state.hosts[i] }),
            ..state
        }),
{
    lemma_place_at(state.hosts, host, i);
}

/// A host without a card is not watched.
pub proof fn lemma_unknown_host(state: StateModel, host: Seq<char>)
    requires
        forall|j: int| 0 <= j < state.hosts.len() ==> (#[trigger] state.hosts[j]).host != host,
    ensures
        !watched(state, host),
{
    lemma_place(state.hosts, host);
    if watched(state, host) {
        let n = place_of(state.hosts, host) as int;
        assert(state.hosts[n].host == host);
    }
}

/// A card takes a further pull request while it has fewer than eight, and always one that it
/// has.
pub proof fn lemma_card_takes_eight(state: StateModel, host: Seq<char>, i: int, url: Seq<char>)
    requires
        is_first_card(state, host, i),
    ensures
        takes_pr(state, host, url) == (state.hosts[i].prs.len() < 8 || exists|k: int|
            0 <= k < state.hosts[i].prs.len() && (#[trigger] state.hosts[i].prs[k]).url == url),
{
    lemma_place_at(state.hosts, host, i);
}

/// What becomes of a request for a pull request: an unknown host is refused, and so is what
/// names no pull request, and one too many. Otherwise the one that was named is taken out, or
/// put behind the others of the file; they stay as they are.
pub proof fn lemma_pr_request(
    state: StateModel,
    request: PrRequest,
    content: Seq<char>,
    r: PrStep,
    i: int,
)
    requires
        pr_step(state, request, content, r),
    ensures
        (forall|j: int| 0 <= j < state.hosts.len() ==> (#[trigger] state.hosts[j]).host
            != request.host@) ==> r == PrStep::Refuse(Refusal::UnknownHost),
        is_first_card(state, request.host@, i) ==> {
            let named = prs::named(request.url@);
            let name = split::trim(request.host@);
            let before = prs::list_of(prs::attached(content), name);
            let removing = request.action@ == "remove"@;
            let shown = state.hosts[i].prs;
            &&& named is None ==> r == PrStep::Refuse(Refusal::NotAPullRequest)
            &&& named matches Some(pr) ==> {
                let fits = shown.len() < 8 || exists|k: int|
                    0 <= k < shown.len() && (#[trigger] shown[k]).url == pr.url;
                &&& !removing && !fits ==> r == PrStep::Refuse(Refusal::TooManyPullRequests)
                &&& (removing || fits) && name.len() == 0 ==> r == PrStep::Refuse(
                    Refusal::PullRequestNotSaved,
                )
                &&& removing && name.len() > 0 ==> r is Save && r->Save_0.list.deep_view()
                    == before.filter(|other: PrView| other.url != pr.url)
                &&& !removing && fits && name.len() > 0 ==> r is Save
                    && r->Save_0.list.deep_view() == prs::attach(before, pr)
                &&& (removing || fits) && name.len() > 0 ==> r->Save_0.content@
                    == prs::file_text(
                    prs::changed(prs::attached(content), name, r->Save_0.list.deep_view()),
                )
            }
        },
{
    if forall|j: int| 0 <= j < state.hosts.len() ==> (#[trigger] state.hosts[j]).host
        != request.host@ {
        lemma_unknown_host(state, request.host@);
    }
    if is_first_card(state, request.host@, i) {
        lemma_place_at(state.hosts, request.host@, i);
        if let Some(pr) = prs::named(request.url@) {
            let before = prs::list_of(prs::attached(content), split::trim(request.host@));
            lemma_card_takes_eight(state, request.host@, i, pr.url);
            prs::lemma_detach_keeps_others(before, pr.url);
        }
    }
}

} // verus!
