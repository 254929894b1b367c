//! The records that devboxes keep and hand out.
use vstd::prelude::*;

use crate::split;
use crate::table::{Duplicate, Table};

verus! {

pub const SCHEMA_VERSION: u32 = 1;

pub const DEFAULT_EVENT_LIMIT: usize = 200;

pub const DEFAULT_RETENTION_DAYS: u64 = 14;

pub const TASK_LIMIT: usize = 120;

pub const MESSAGE_LIMIT: usize = 2000;

/// How long a link lives on without being refreshed.
pub const LINK_TTL_SECONDS: i64 = 180;

/// One thing that happened in a session.
#[derive(Clone, Debug, PartialEq, Eq)]
pub struct Event {
    pub schema_version: u32,
    pub event_id: String,
    pub provider: String,
    pub event: String,
    pub session_id: String,
    pub run_id: String,
    pub host: String,
    pub cwd: String,
    pub project: String,
    pub tmux: String,
    pub task: String,
    pub message: String,
    pub state: String,
    pub updated_at: String,
}

/// What a value of `Event` says.
pub struct EventView {
    pub schema_version: u32,
    pub event_id: Seq<char>,
    pub provider: Seq<char>,
    pub event: Seq<char>,
    pub session_id: Seq<char>,
    pub run_id: Seq<char>,
    pub host: Seq<char>,
    pub cwd: Seq<char>,
    pub project: Seq<char>,
    pub tmux: Seq<char>,
    pub task: Seq<char>,
    pub message: Seq<char>,
    pub state: Seq<char>,
    pub updated_at: Seq<char>,
}

impl DeepView for Event {
    type V = EventView;

    open spec fn deep_view(&self) -> EventView {
        EventView {
            schema_version: self.schema_version,
            event_id: self.event_id@,
            provider: self.provider@,
            event: self.event@,
            session_id: self.session_id@,
            run_id: self.run_id@,
            host: self.host@,
            cwd: self.cwd@,
            project: self.project@,
            tmux: self.tmux@,
            task: self.task@,
            message: self.message@,
            state: self.state@,
            updated_at: self.updated_at@,
        }
    }
}

impl Duplicate for Event {
    fn duplicate(&self) -> (copy: Self) {
        Event {
            schema_version: self.schema_version,
            event_id: self.event_id.clone(),
            provider: self.provider.clone(),
            event: self.event.clone(),
            session_id: self.session_id.clone(),
            run_id: self.run_id.clone(),
            host: self.host.clone(),
            cwd: self.cwd.clone(),
            project: self.project.clone(),
            tmux: self.tmux.clone(),
            task: self.task.clone(),
            message: self.message.clone(),
            state: self.state.clone(),
            updated_at: self.updated_at.clone(),
        }
    }
}

/// The last known state of a session.
#[derive(Clone, Debug, PartialEq, Eq)]
pub struct RunRecord {
    pub schema_version: u32,
    pub provider: String,
    pub session_id: String,
    pub run_id: String,
    pub host: String,
    pub cwd: String,
    pub project: String,
    pub tmux: String,
    pub task: String,
    pub message: String,
    pub state: String,
    pub updated_at: String,
}

/// What a value of `RunRecord` says.
pub struct RunView {
    pub schema_version: u32,
    pub provider: Seq<char>,
    pub session_id: Seq<char>,
    pub run_id: Seq<char>,
    pub host: Seq<char>,
    pub cwd: Seq<char>,
    pub project: Seq<char>,
    pub tmux: Seq<char>,
    pub task: Seq<char>,
    pub message: Seq<char>,
    pub state: Seq<char>,
    pub updated_at: Seq<char>,
}

impl DeepView for RunRecord {
    type V = RunView;

    open spec fn deep_view(&self) -> RunView {
        RunView {
            schema_version: self.schema_version,
            provider: self.provider@,
            session_id: self.session_id@,
            run_id: self.run_id@,
            host: self.host@,
            cwd: self.cwd@,
            project: self.project@,
            tmux: self.tmux@,
            task: self.task@,
            message: self.message@,
            state: self.state@,
            updated_at: self.updated_at@,
        }
    }
}

impl Duplicate for RunRecord {
    fn duplicate(&self) -> (copy: Self) {
        RunRecord {
            schema_version: self.schema_version,
            provider: self.provider.clone(),
            session_id: self.session_id.clone(),
            run_id: self.run_id.clone(),
            host: self.host.clone(),
            cwd: self.cwd.clone(),
            project: self.project.clone(),
            tmux: self.tmux.clone(),
            task: self.task.clone(),
            message: self.message.clone(),
            state: self.state.clone(),
            updated_at: self.updated_at.clone(),
        }
    }
}

impl Default for RunRecord {
    fn default() -> (r: Self)
        ensures
            r.schema_version == 0,
            r.provider@ == Seq::<char>::empty(),
            r.session_id@ == Seq::<char>::empty(),
            r.run_id@ == Seq::<char>::empty(),
            r.host@ == Seq::<char>::empty(),
            r.cwd@ == Seq::<char>::empty(),
            r.project@ == Seq::<char>::empty(),
            r.tmux@ == Seq::<char>::empty(),
            r.task@ == Seq::<char>::empty(),
            r.message@ == Seq::<char>::empty(),
            r.state@ == Seq::<char>::empty(),
            r.updated_at@ == Seq::<char>::empty(),
    {
        RunRecord {
            schema_version: 0,
            provider: String::new(),
            session_id: String::new(),
            run_id: String::new(),
            host: String::new(),
            cwd: String::new(),
            project: String::new(),
            tmux: String::new(),
            task: String::new(),
            message: String::new(),
            state: String::new(),
            updated_at: String::new(),
        }
    }
}

/// A web page that a devbox serves.
#[derive(Clone, Debug, PartialEq, Eq)]
pub struct Link {
    pub schema_version: u32,
    pub id: String,
    pub kind: String,
    pub url: String,
    pub title: String,
    pub cwd: String,
    pub project: String,
    pub tmux: String,
    pub updated_at: String,
}

/// What a value of `Link` says.
pub struct LinkView {
    pub schema_version: u32,
    pub id: Seq<char>,
    pub kind: Seq<char>,
    pub url: Seq<char>,
    pub title: Seq<char>,
    pub cwd: Seq<char>,
    pub project: Seq<char>,
    pub tmux: Seq<char>,
    pub updated_at: Seq<char>,
}

impl DeepView for Link {
    type V = LinkView;

    open spec fn deep_view(&self) -> LinkView {
        LinkView {
            schema_version: self.schema_version,
            id: self.id@,
            kind: self.kind@,
            url: self.url@,
            title: self.title@,
            cwd: self.cwd@,
            project: self.project@,
            tmux: self.tmux@,
            updated_at: self.updated_at@,
        }
    }
}

impl Duplicate for Link {
    fn duplicate(&self) -> (copy: Self) {
        Link {
            schema_version: self.schema_version,
            id: self.id.clone(),
            kind: self.kind.clone(),
            url: self.url.clone(),
            title: self.title.clone(),
            cwd: self.cwd.clone(),
            project: self.project.clone(),
            tmux: self.tmux.clone(),
            updated_at: self.updated_at.clone(),
        }
    }
}

impl Default for Link {
    fn default() -> (r: Self)
        ensures
            r.schema_version == 0,
            r.id@ == Seq::<char>::empty(),
            r.kind@ == Seq::<char>::empty(),
            r.url@ == Seq::<char>::empty(),
            r.title@ == Seq::<char>::empty(),
            r.cwd@ == Seq::<char>::empty(),
            r.project@ == Seq::<char>::empty(),
            r.tmux@ == Seq::<char>::empty(),
            r.updated_at@ == Seq::<char>::empty(),
    {
        Link {
            schema_version: 0,
            id: String::new(),
            kind: String::new(),
            url: String::new(),
            title: String::new(),
            cwd: String::new(),
            project: String::new(),
            tmux: String::new(),
            updated_at: String::new(),
        }
    }
}

/// The run that an event leaves behind, as far as the event says.
pub open spec fn run_of(event: EventView) -> RunView {
    RunView {
        schema_version: event.schema_version,
        provider: event.provider,
        session_id: event.session_id,
        run_id: event.run_id,
        host: event.host,
        cwd: event.cwd,
        project: event.project,
        tmux: event.tmux,
        task: event.task,
        message: event.message,
        state: event.state,
        updated_at: event.updated_at,
    }
}

impl From<Event> for RunRecord {
    fn from(event: Event) -> (run: Self) {
        RunRecord {
            schema_version: event.schema_version,
            provider: event.provider,
            session_id: event.session_id,
            run_id: event.run_id,
            host: event.host,
            cwd: event.cwd,
            project: event.project,
            tmux: event.tmux,
            task: event.task,
            message: event.message,
            state: event.state,
            updated_at: event.updated_at,
        }
    }
}

impl vstd::std_specs::convert::FromSpecImpl<Event> for RunRecord {
    open spec fn obeys_from_spec() -> bool {
        true
    }

    open spec fn from_spec(event: Event) -> RunRecord {
        RunRecord {
            schema_version: event.schema_version,
            provider: event.provider,
            session_id: event.session_id,
            run_id: event.run_id,
            host: event.host,
            cwd: event.cwd,
            project: event.project,
            tmux: event.tmux,
            task: event.task,
            message: event.message,
            state: event.state,
            updated_at: event.updated_at,
        }
    }
}

/// What one machine knows: its sessions, its links and its recent events.
#[derive(Clone, Debug, PartialEq, Eq)]
pub struct Snapshot {
    pub schema_version: u32,
    pub host: String,
    pub generated_at: String,
    pub runs: Vec<RunRecord>,
    pub links: Vec<Link>,
    pub events: Vec<Event>,
}

/// What a value of `Snapshot` says.
pub struct SnapshotView {
    pub schema_version: u32,
    pub host: Seq<char>,
    pub generated_at: Seq<char>,
    pub runs: Seq<RunView>,
    pub links: Seq<LinkView>,
    pub events: Seq<EventView>,
}

impl DeepView for Snapshot {
    type V = SnapshotView;

    open spec fn deep_view(&self) -> SnapshotView {
        SnapshotView {
            schema_version: self.schema_version,
            host: self.host@,
            generated_at: self.generated_at@,
            runs: self.runs.deep_view(),
            links: self.links.deep_view(),
            events: self.events.deep_view(),
        }
    }
}

impl Duplicate for Snapshot {
    fn duplicate(&self) -> (copy: Self) {
        Snapshot {
            schema_version: self.schema_version,
            host: self.host.clone(),
            generated_at: self.generated_at.clone(),
            runs: self.runs.duplicate(),
            links: self.links.duplicate(),
            events: self.events.duplicate(),
        }
    }
}

/// What the dashboard remembers from one poll to the next.
pub struct DashboardCache {
    /// The hosts that have been reached before, in ascending order.
    pub initialized_hosts: Vec<String>,
    /// The events that have been seen, oldest first.
    pub seen_events: Vec<String>,
    /// The last snapshot of each host.
    pub last_snapshots: Table<Snapshot>,
}

/// What a value of `DashboardCache` says.
#[verifier::ext_equal]
pub struct CacheView {
    pub initialized_hosts: Seq<Seq<char>>,
    pub seen_events: Seq<Seq<char>>,
    pub last_snapshots: Map<Seq<char>, SnapshotView>,
}

impl View for DashboardCache {
    type V = CacheView;

    open spec fn view(&self) -> CacheView {
        CacheView {
            initialized_hosts: split::texts(self.initialized_hosts@),
            seen_events: split::texts(self.seen_events@),
            last_snapshots: self.last_snapshots@,
        }
    }
}

impl Default for DashboardCache {
    fn default() -> (r: Self)
        ensures
            r.initialized_hosts@.len() == 0,
            r.seen_events@.len() == 0,
            r.last_snapshots@ == Map::<Seq<char>, SnapshotView>::empty(),
    {
        DashboardCache {
            initialized_hosts: Vec::new(),
            seen_events: Vec::new(),
            last_snapshots: Table::new(),
        }
    }
}

/// The version that a record without one is taken to have.
pub fn schema_version() -> (r: u32)
    ensures
        r == SCHEMA_VERSION,
{
    SCHEMA_VERSION
}

} // verus!
