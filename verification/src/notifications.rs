//! What is news to the user, poll after poll.
use vstd::prelude::*;

use vstd::hash_set::StringHashSet;

use crate::model::{
    CacheView, DashboardCache, Event, EventView, RunRecord, RunView, Snapshot, SnapshotView,
};
use crate::paths;
use crate::paths::join;
use crate::split;
use crate::table;
use crate::table::{Duplicate, Table};
use crate::text;
use crate::text::{same, to_chars, to_text, to_upper};

verus! {

/// How many events are remembered.
pub const SEEN_LIMIT: usize = 5000;

/// A desktop notification.
pub struct Notification {
    pub title: String,
    pub message: String,
}

/// What a value of `Notification` says.
pub struct NotificationView {
    pub title: Seq<char>,
    pub message: Seq<char>,
}

impl DeepView for Notification {
    type V = NotificationView;

    open spec fn deep_view(&self) -> NotificationView {
        NotificationView { title: self.title@, message: self.message@ }
    }
}

// ---------------------------------------------------------------------------
// The words of a notification
// ---------------------------------------------------------------------------

/// A character as `char::to_uppercase` writes it: one character or more.
pub uninterp spec fn uppercase(c: char) -> Seq<char>;

/// `char::to_uppercase`, collected into a text. An ASCII character gives the one ASCII
/// character that is its upper case.
#[verifier::external_body]
fn uppercase_of(c: char) -> (r: String)
    ensures
        r@ == uppercase(c),
        c as int <= 127 ==> r@ == seq![text::upper_char(c)],
{
    c.to_uppercase().collect()
}

/// The text with its first character, already written in upper case, in front.
pub open spec fn capitalized_with(value: Seq<char>, first: Seq<char>) -> Seq<char> {
    if value.len() > 0 {
        first + value.drop_first()
    } else {
        "LLM"@
    }
}

/// The text with its first character in upper case.
pub open spec fn capitalized(value: Seq<char>) -> Seq<char> {
    capitalized_with(value, uppercase(value[0]))
}

pub fn capitalize_with(value: &str, first: &str) -> (r: String)
    ensures
        r@ == capitalized_with(value@, first@),
{
    let chars = to_chars(value);
    if chars.len() == 0 {
        return "LLM".to_owned();
    }
    let mut out = first.to_owned();
    let rest = to_text(vstd::slice::slice_subrange(chars.as_slice(), 1, chars.len()));
    out.append(rest.as_str());
    assert(value@.drop_first() =~= rest@);
    out
}

/// The text with its first character in upper case.
pub fn capitalize(value: &str) -> (r: String)
    ensures
        r@ == capitalized(value@),
        value@.len() > 0 && value@[0] as int <= 127 ==> r@ == value@.update(
            0,
            text::upper_char(value@[0]),
        ),
{
    let chars = to_chars(value);
    if chars.len() == 0 {
        return "LLM".to_owned();
    }
    let first = uppercase_of(chars[0]);
    let out = capitalize_with(value, first.as_str());
    assert(value@[0] as int <= 127 ==> out@ =~= value@.update(0, text::upper_char(value@[0])));
    out
}

/// What a notification calls the session.
pub open spec fn subject(event: EventView) -> Seq<char> {
    if event.task.len() > 0 {
        event.task
    } else if event.project.len() > 0 {
        event.project
    } else {
        "session"@
    }
}

/// The notification of an event on a host.
pub open spec fn notification_of(host: Seq<char>, event: EventView) -> NotificationView {
    NotificationView {
        title: "LLM Watch: "@ + text::upper(event.state),
        message: host + " · "@ + capitalized(event.provider) + " · "@ + subject(event),
    }
}

fn notification(host: &str, event: &Event) -> (r: Notification)
    ensures
        r.deep_view() == notification_of(host@, event.deep_view()),
{
    let mut title = "LLM Watch: ".to_owned();
    title.append(to_upper(event.state.as_str()).as_str());
    let mut message = host.to_owned();
    message.append(" · ");
    message.append(capitalize(event.provider.as_str()).as_str());
    message.append(" · ");
    if !event.task.as_str().is_empty() {
        message.append(event.task.as_str());
    } else if !event.project.as_str().is_empty() {
        message.append(event.project.as_str());
    } else {
        message.append("session");
    }
    Notification { title, message }
}

// ---------------------------------------------------------------------------
// News
// ---------------------------------------------------------------------------

/// The state that a session is in; where several records are of one session, the last
/// one counts.
pub open spec fn current_state(runs: Seq<RunView>, run_id: Seq<char>) -> Option<Seq<char>>
    decreases runs.len(),
{
    if runs.len() == 0 {
        None
    } else if runs.last().run_id == run_id {
        Some(runs.last().state)
    } else {
        current_state(runs.drop_last(), run_id)
    }
}

/// The event calls for the user, and the session is still in the state it reports.
pub open spec fn calls_for_user(event: EventView, runs: Seq<RunView>) -> bool {
    &&& event.state == "ready"@ || event.state == "approval"@ || event.state == "error"@
    &&& current_state(runs, event.run_id) == Some(event.state)
}

/// The events seen once these have been looked at.
pub open spec fn seen_after(seen: Seq<Seq<char>>, events: Seq<EventView>) -> Seq<Seq<char>>
    decreases events.len(),
{
    if events.len() == 0 {
        seen
    } else {
        let earlier = seen_after(seen, events.drop_last());
        if earlier.contains(events.last().event_id) {
            earlier
        } else {
            earlier.push(events.last().event_id)
        }
    }
}

/// The notifications of the events that have not been seen before.
pub open spec fn news(
    seen: Seq<Seq<char>>,
    host: Seq<char>,
    runs: Seq<RunView>,
    events: Seq<EventView>,
) -> Seq<NotificationView>
    decreases events.len(),
{
    if events.len() == 0 {
        Seq::empty()
    } else {
        let earlier = news(seen, host, runs, events.drop_last());
        let event = events.last();
        if !seen_after(seen, events.drop_last()).contains(event.event_id) && calls_for_user(
            event,
            runs,
        ) {
            earlier.push(notification_of(host, event))
        } else {
            earlier
        }
    }
}

/// How far a round over the hosts has come.
#[verifier::ext_equal]
pub struct Round {
    /// The hosts that have been reached at least once.
    pub hosts: Set<Seq<char>>,
    pub seen: Seq<Seq<char>>,
    pub notifications: Seq<NotificationView>,
}

/// One host's snapshot is looked at. The first one of a host only tells what is old.
pub open spec fn round_step(round: Round, host: Seq<char>, snapshot: SnapshotView) -> Round {
    Round {
        hosts: round.hosts.insert(host),
        seen: seen_after(round.seen, snapshot.events),
        notifications: if round.hosts.contains(host) {
            round.notifications + news(round.seen, host, snapshot.runs, snapshot.events)
        } else {
            round.notifications
        },
    }
}

/// The snapshots of the hosts are looked at one after the other.
pub open spec fn round_over(
    round: Round,
    hosts: Seq<Seq<char>>,
    snapshots: Map<Seq<char>, SnapshotView>,
) -> Round
    decreases hosts.len(),
{
    if hosts.len() == 0 {
        round
    } else {
        round_step(
            round_over(round, hosts.drop_last(), snapshots),
            hosts.last(),
            snapshots[hosts.last()],
        )
    }
}

/// The round that a poll makes, host by host in ascending order.
pub open spec fn round_of(cache: CacheView, snapshots: Map<Seq<char>, SnapshotView>) -> Round {
    round_over(
        Round {
            hosts: cache.initialized_hosts.to_set(),
            seen: cache.seen_events,
            notifications: Seq::empty(),
        },
        table::sorted_keys(snapshots.dom()),
        snapshots,
    )
}

/// What is remembered after a poll.
pub open spec fn cache_after(cache: CacheView, snapshots: Map<Seq<char>, SnapshotView>) -> CacheView {
    let round = round_of(cache, snapshots);
    CacheView {
        initialized_hosts: table::sorted_keys(round.hosts),
        seen_events: split::last_of(round.seen, SEEN_LIMIT as nat),
        last_snapshots: cache.last_snapshots.union_prefer_right(snapshots),
    }
}

/// The notifications that a poll gives rise to.
pub open spec fn notifications_of(
    cache: CacheView,
    snapshots: Map<Seq<char>, SnapshotView>,
    enabled: bool,
) -> Seq<NotificationView> {
    if enabled {
        round_of(cache, snapshots).notifications
    } else {
        Seq::empty()
    }
}

/// The snapshots to show: those of this poll, and for the other hosts the last known ones.
pub open spec fn last_known(
    cache: CacheView,
    snapshots: Map<Seq<char>, SnapshotView>,
    hosts: Seq<Seq<char>>,
) -> Map<Seq<char>, SnapshotView> {
    cache.last_snapshots.restrict(hosts.to_set()).union_prefer_right(snapshots)
}

fn is_current(runs: &Vec<RunRecord>, run_id: &str, state: &str) -> (r: bool)
    ensures
        r == (current_state(runs.deep_view(), run_id@) == Some(state@)),
{
    let ghost all = runs.deep_view();
    let mut n: usize = runs.len();
    assert(all.take(n as int) =~= all);
    while n > 0
        invariant
            n <= runs@.len(),
            all == runs.deep_view(),
            current_state(all, run_id@) == current_state(all.take(n as int), run_id@),
        decreases n,
    {
        assert(all.take(n as int).drop_last() =~= all.take(n - 1));
        assert(all.take(n as int).last() == runs@[n - 1].deep_view());
        if same(runs[n - 1].run_id.as_str(), run_id) {
            return same(runs[n - 1].state.as_str(), state);
        }
        n -= 1;
    }
    false
}

fn should_notify(event: &Event, runs: &Vec<RunRecord>) -> (r: bool)
    ensures
        r == calls_for_user(event.deep_view(), runs.deep_view()),
{
    let state = event.state.as_str();
    (same(state, "ready") || same(state, "approval") || same(state, "error")) && is_current(
        runs,
        event.run_id.as_str(),
        state,
    )
}

/// The events that have been seen, in the order in which they were first seen.
struct Seen {
    order: Vec<String>,
    ids: StringHashSet,
}

impl Seen {
    spec fn consistent(self) -> bool {
        self.ids@ == split::texts(self.order@).to_set()
    }

    /// Remembers an event; says whether it is new.
    fn insert(&mut self, id: &String) -> (new: bool)
        requires
            old(self).consistent(),
        ensures
            final(self).consistent(),
            new == !split::texts(old(self).order@).contains(id@),
            split::texts(final(self).order@) == if new {
                split::texts(old(self).order@).push(id@)
            } else {
                split::texts(old(self).order@)
            },
    {
        let ghost before = split::texts(self.order@);
        let new = self.ids.insert(id.clone());
        if new {
            self.order.push(id.clone());
            proof {
                assert(split::texts(self.order@) =~= before.push(id@));
                table::lemma_to_set_push(before, id@);
            }
        } else {
            assert(before.to_set().insert(id@) =~= before.to_set());
        }
        new
    }
}

/// Looks at one host's snapshot.
fn look_at(
    seen: &mut Seen,
    out: &mut Vec<Notification>,
    known: bool,
    enabled: bool,
    host: &str,
    snapshot: &Snapshot,
)
    requires
        old(seen).consistent(),
    ensures
        final(seen).consistent(),
        split::texts(final(seen).order@) == seen_after(
            split::texts(old(seen).order@),
            snapshot.events.deep_view(),
        ),
        final(out).deep_view() == if known && enabled {
            old(out).deep_view() + news(
                split::texts(old(seen).order@),
                host@,
                snapshot.runs.deep_view(),
                snapshot.events.deep_view(),
            )
        } else {
            old(out).deep_view()
        },
{
    let ghost start = split::texts(seen.order@);
    let ghost first = out.deep_view();
    let ghost runs = snapshot.runs.deep_view();
    let ghost events = snapshot.events.deep_view();
    let mut i: usize = 0;
    assert(events.take(0) =~= Seq::empty());
    assert(first + news(start, host@, runs, events.take(0)) =~= first);
    while i < snapshot.events.len()
        invariant
            i <= snapshot.events@.len(),
            events == snapshot.events.deep_view(),
            runs == snapshot.runs.deep_view(),
            seen.consistent(),
            split::texts(seen.order@) == seen_after(start, events.take(i as int)),
            out.deep_view() == if known && enabled {
                first + news(start, host@, runs, events.take(i as int))
            } else {
                first
            },
        decreases snapshot.events@.len() - i,
    {
        let event = &snapshot.events[i];
        proof {
            assert(events.take(i + 1).drop_last() =~= events.take(i as int));
            assert(events.take(i + 1).last() == event.deep_view());
        }
        let new = seen.insert(&event.event_id);
        if new && known && enabled && should_notify(event, &snapshot.runs) {
            let ghost earlier = out.deep_view();
            out.push(notification(host, event));
            assert(out.deep_view() =~= earlier.push(notification_of(host@, event.deep_view())));
            assert(out.deep_view() =~= first + news(start, host@, runs, events.take(i + 1)));
        }
        i += 1;
    }
    assert(events.take(i as int) =~= events);
}

/// Looks for news in the snapshots of a poll. Returns the notifications to send, and the
/// cache to keep for the next poll.
pub fn process_notifications(
    cache: DashboardCache,
    snapshots: &Table<Snapshot>,
    enabled: bool,
) -> (r: (DashboardCache, Vec<Notification>))
    ensures
        r.0@ == cache_after(cache@, snapshots@),
        r.1.deep_view() == notifications_of(cache@, snapshots@, enabled),
{
    let ghost before = cache@;
    let DashboardCache { initialized_hosts, seen_events, mut last_snapshots } = cache;
    let mut initialized: Table<()> = Table::new();
    let mut i: usize = 0;
    let ghost known = before.initialized_hosts;
    assert(known.take(0).to_set() =~= Set::empty());
    while i < initialized_hosts.len()
        invariant
            i <= initialized_hosts@.len(),
            known == split::texts(initialized_hosts@),
            initialized@.dom() == known.take(i as int).to_set(),
        decreases initialized_hosts@.len() - i,
    {
        proof {
            assert(known.take(i + 1) =~= known.take(i as int).push(known[i as int]));
            table::lemma_to_set_push(known.take(i as int), known[i as int]);
        }
        initialized.insert(initialized_hosts[i].clone(), ());
        i += 1;
    }
    assert(known.take(i as int) =~= known);
    let mut ids = StringHashSet::new();
    let ghost order = before.seen_events;
    assert(order.take(0).to_set() =~= Set::empty());
    i = 0;
    while i < seen_events.len()
        invariant
            i <= seen_events@.len(),
            order == split::texts(seen_events@),
            ids@ == order.take(i as int).to_set(),
        decreases seen_events@.len() - i,
    {
        proof {
            assert(order.take(i + 1) =~= order.take(i as int).push(order[i as int]));
            table::lemma_to_set_push(order.take(i as int), order[i as int]);
        }
        ids.insert(seen_events[i].clone());
        i += 1;
    }
    assert(order.take(i as int) =~= order);
    let mut seen = Seen { order: seen_events, ids };
    let mut out: Vec<Notification> = Vec::new();
    let count: usize = snapshots.len();
    let ghost hosts = table::sorted_keys(snapshots@.dom());
    let ghost start = Round {
        hosts: known.to_set(),
        seen: order,
        notifications: Seq::empty(),
    };
    let ghost old_snapshots = before.last_snapshots;
    i = 0;
    proof {
        assert(hosts.take(0) =~= Seq::empty());
        assert(hosts.take(0).to_set() =~= Set::empty());
        assert(old_snapshots.union_prefer_right(snapshots@.restrict(Set::empty()))
            =~= old_snapshots);
        assert(out.deep_view() =~= Seq::empty());
    }
    while i < count
        invariant
            count == hosts.len(),
            hosts == table::sorted_keys(snapshots@.dom()),
            hosts.to_set() == snapshots@.dom(),
            i <= count,
            seen.consistent(),
            initialized@.dom() == round_over(start, hosts.take(i as int), snapshots@).hosts,
            split::texts(seen.order@) == round_over(start, hosts.take(i as int), snapshots@).seen,
            out.deep_view() == if enabled {
                round_over(start, hosts.take(i as int), snapshots@).notifications
            } else {
                Seq::empty()
            },
            last_snapshots@ == old_snapshots.union_prefer_right(
                snapshots@.restrict(hosts.take(i as int).to_set()),
            ),
        decreases count - i,
    {
        let host = snapshots.key_at(i);
        let snapshot = snapshots.value_at(i);
        proof {
            let key = hosts[i as int];
            assert(hosts.take(i + 1).drop_last() =~= hosts.take(i as int));
            assert(hosts.take(i + 1).last() == key);
            assert(hosts.take(i + 1) =~= hosts.take(i as int).push(key));
            table::lemma_to_set_push(hosts.take(i as int), key);
            assert(old_snapshots.union_prefer_right(
                snapshots@.restrict(hosts.take(i as int).to_set()),
            ).insert(key, snapshots@[key]) =~= old_snapshots.union_prefer_right(
                snapshots@.restrict(hosts.take(i + 1).to_set()),
            ));
        }
        let reached_before = initialized.contains(host.as_str());
        look_at(&mut seen, &mut out, reached_before, enabled, host.as_str(), snapshot);
        initialized.insert(host.clone(), ());
        last_snapshots.insert(host.clone(), snapshot.duplicate());
        i += 1;
    }
    proof {
        assert(hosts.take(i as int) =~= hosts);
        assert(snapshots@.restrict(snapshots@.dom()) =~= snapshots@);
    }
    let ghost all = seen.order@;
    let mut kept = seen.order;
    if kept.len() > SEEN_LIMIT {
        let from: usize = kept.len() - SEEN_LIMIT;
        kept = kept.split_off(from);
        assert(split::texts(kept@) =~= split::texts(all).skip(all.len() - SEEN_LIMIT));
    }
    let cache = DashboardCache {
        initialized_hosts: initialized.keys(),
        seen_events: kept,
        last_snapshots,
    };
    (cache, out)
}

/// The snapshots to show: those of this poll, and for the other hosts the last known ones.
pub fn with_last_known(
    cache: &DashboardCache,
    snapshots: &Table<Snapshot>,
    hosts: &Vec<String>,
) -> (r: Table<Snapshot>)
    ensures
        r@ == last_known(cache@, snapshots@, split::texts(hosts@)),
{
    let ghost known = cache@.last_snapshots;
    let ghost all = split::texts(hosts@);
    let mut combined: Table<Snapshot> = Table::new();
    let mut i: usize = 0;
    proof {
        assert(all.take(0).to_set() =~= Set::empty());
        assert(combined@ =~= known.restrict(all.take(0).to_set()));
    }
    while i < hosts.len()
        invariant
            i <= hosts@.len(),
            all == split::texts(hosts@),
            known == cache@.last_snapshots,
            combined@ == known.restrict(all.take(i as int).to_set()),
        decreases hosts@.len() - i,
    {
        let host = &hosts[i];
        proof {
            assert(all.take(i + 1) =~= all.take(i as int).push(host@));
            table::lemma_to_set_push(all.take(i as int), host@);
        }
        match cache.last_snapshots.get(host.as_str()) {
            Some(snapshot) => {
                assert(known.restrict(all.take(i as int).to_set()).insert(host@, known[host@])
                    =~= known.restrict(all.take(i + 1).to_set()));
                combined.insert(host.clone(), snapshot.duplicate());
            },
            None => {
                assert(known.restrict(all.take(i as int).to_set()) =~= known.restrict(
                    all.take(i + 1).to_set(),
                ));
            },
        }
        i += 1;
    }
    assert(all.take(i as int) =~= all);
    let ghost base = combined@;
    let count: usize = snapshots.len();
    let ghost keys = table::sorted_keys(snapshots@.dom());
    i = 0;
    proof {
        assert(keys.take(0).to_set() =~= Set::empty());
        assert(base.union_prefer_right(snapshots@.restrict(Set::empty())) =~= base);
    }
    while i < count
        invariant
            count == keys.len(),
            keys == table::sorted_keys(snapshots@.dom()),
            keys.to_set() == snapshots@.dom(),
            i <= count,
            combined@ == base.union_prefer_right(
                snapshots@.restrict(keys.take(i as int).to_set()),
            ),
        decreases count - i,
    {
        proof {
            let key = keys[i as int];
            assert(keys.take(i + 1) =~= keys.take(i as int).push(key));
            table::lemma_to_set_push(keys.take(i as int), key);
            assert(snapshots@.dom().contains(key)) by {
                assert(keys.contains(key));
            }
            assert(base.union_prefer_right(
                snapshots@.restrict(keys.take(i as int).to_set()),
            ).insert(key, snapshots@[key]) =~= base.union_prefer_right(
                snapshots@.restrict(keys.take(i + 1).to_set()),
            ));
        }
        combined.insert(snapshots.key_at(i).clone(), snapshots.value_at(i).duplicate());
        i += 1;
    }
    proof {
        assert(keys.take(i as int) =~= keys);
        assert(snapshots@.restrict(snapshots@.dom()) =~= snapshots@);
    }
    combined
}

/// Where the cache is kept.
pub fn cache_path(state_dir: &str) -> (r: String)
    ensures
        r@ == paths::joined(state_dir@, "dashboard-cache.json"@),
{
    join(state_dir, "dashboard-cache.json")
}

// ---------------------------------------------------------------------------
// Sending a notification
// ---------------------------------------------------------------------------

/// The words that `shell_words::split` makes of a command line; nothing where it refuses
/// the line.
pub uninterp spec fn shell_parts(line: Seq<char>) -> Option<Seq<Seq<char>>>;

/// `shell_words::split`: the words of a command line by the rules of a POSIX shell, or that
/// a quote is left open, which is a matter of the line alone.
#[verifier::external_body]
fn split_command(line: &str) -> (r: Option<Vec<String>>)
    ensures
        match r {
            Some(parts) => shell_parts(line@) == Some(split::texts(parts@)),
            None => shell_parts(line@) is None,
        },
{
    shell_words::split(line).ok()
}

/// The notifiers at hand.
#[derive(Clone, Copy, Debug)]
pub struct Notifiers {
    pub terminal_notifier: bool,
    /// `osascript`, on a Mac.
    pub osascript: bool,
    pub notify_send: bool,
}

/// The command that shows a notification by the user's own notifier: its words, then the
/// title and the message.
pub open spec fn custom_command(
    parts: Option<Seq<Seq<char>>>,
    title: Seq<char>,
    message: Seq<char>,
) -> Option<Seq<Seq<char>>> {
    match parts {
        Some(parts) if parts.len() > 0 => Some(parts + seq![title, message]),
        _ => None,
    }
}

/// The command that shows a notification by the first notifier at hand.
pub open spec fn stock_command(
    notifiers: Notifiers,
    title: Seq<char>,
    message: Seq<char>,
) -> Option<Seq<Seq<char>>> {
    if notifiers.terminal_notifier {
        Some(
            seq![
                "terminal-notifier"@,
                "-title"@,
                title,
                "-message"@,
                message,
                "-group"@,
                "llm-watch"@,
            ],
        )
    } else if notifiers.osascript {
        Some(
            seq![
                "osascript"@,
                "-e"@,
                "on run argv\ndisplay notification (item 2 of argv) with title (item 1 of argv)\nend run"@,
                "--"@,
                title,
                message,
            ],
        )
    } else if notifiers.notify_send {
        Some(seq!["notify-send"@, title, message])
    } else {
        None
    }
}

pub open spec fn command_words(command: Option<Vec<String>>) -> Option<Seq<Seq<char>>> {
    match command {
        Some(words) => Some(split::texts(words@)),
        None => None,
    }
}

fn with_custom(parts: Option<Vec<String>>, title: &str, message: &str) -> (r: Option<Vec<String>>)
    ensures
        command_words(r) == custom_command(command_words(parts), title@, message@),
{
    match parts {
        Some(mut words) => if words.len() > 0 {
            let ghost before = words@;
            words.push(title.to_owned());
            words.push(message.to_owned());
            assert(split::texts(words@) =~= split::texts(before) + seq![title@, message@]);
            Some(words)
        } else {
            None
        },
        None => None,
    }
}

fn with_stock(notifiers: Notifiers, title: &str, message: &str) -> (r: Option<Vec<String>>)
    ensures
        command_words(r) == stock_command(notifiers, title@, message@),
{
    if notifiers.terminal_notifier {
        let words = vec![
            "terminal-notifier".to_owned(),
            "-title".to_owned(),
            title.to_owned(),
            "-message".to_owned(),
            message.to_owned(),
            "-group".to_owned(),
            "llm-watch".to_owned(),
        ];
        assert(split::texts(words@) =~= stock_command(notifiers, title@, message@)->Some_0);
        Some(words)
    } else if notifiers.osascript {
        let words = vec![
            "osascript".to_owned(),
            "-e".to_owned(),
            "on run argv\ndisplay notification (item 2 of argv) with title (item 1 of argv)\nend run".to_owned(),
            "--".to_owned(),
            title.to_owned(),
            message.to_owned(),
        ];
        assert(split::texts(words@) =~= stock_command(notifiers, title@, message@)->Some_0);
        Some(words)
    } else if notifiers.notify_send {
        let words = vec!["notify-send".to_owned(), title.to_owned(), message.to_owned()];
        assert(split::texts(words@) =~= stock_command(notifiers, title@, message@)->Some_0);
        Some(words)
    } else {
        None
    }
}

/// The command that shows a notification, given the words of the one that the user has
/// configured; a configured command that cannot be read, or has no words, shows nothing.
pub fn notify_with(
    configured: Option<Option<Vec<String>>>,
    notifiers: Notifiers,
    title: &str,
    message: &str,
) -> (r: Option<Vec<String>>)
    ensures
        command_words(r) == match configured {
            Some(parts) => custom_command(command_words(parts), title@, message@),
            None => stock_command(notifiers, title@, message@),
        },
{
    match configured {
        Some(parts) => with_custom(parts, title, message),
        None => with_stock(notifiers, title, message),
    }
}

/// The command that shows a notification: the one that the user has configured, else the
/// first notifier at hand.
pub fn notify(
    configured: Option<&str>,
    notifiers: Notifiers,
    title: &str,
    message: &str,
) -> (r: Option<Vec<String>>)
    ensures
        command_words(r) == match configured {
            Some(line) => custom_command(shell_parts(line@), title@, message@),
            None => stock_command(notifiers, title@, message@),
        },
{
    match configured {
        Some(line) => notify_with(Some(split_command(line)), notifiers, title, message),
        None => notify_with(None, notifiers, title, message),
    }
}

// ---------------------------------------------------------------------------
// What a user can rely on
// ---------------------------------------------------------------------------

/// One of the events has that identifier.
pub open spec fn names_event(events: Seq<EventView>, id: Seq<char>) -> bool {
    exists|i: int| 0 <= i < events.len() && (#[trigger] events[i]).event_id == id
}

proof fn lemma_seen_after(seen: Seq<Seq<char>>, events: Seq<EventView>, id: Seq<char>)
    ensures
        seen_after(seen, events).contains(id) == (seen.contains(id) || names_event(events, id)),
    decreases events.len(),
{
    if events.len() > 0 {
        let fewer = events.drop_last();
        let earlier = seen_after(seen, fewer);
        let last = events.last().event_id;
        lemma_seen_after(seen, fewer, id);
        if names_event(fewer, id) {
            let i = choose|i: int| 0 <= i < fewer.len() && (#[trigger] fewer[i]).event_id == id;
            assert(events[i].event_id == id);
        }
        if names_event(events, id) {
            let i = choose|i: int| 0 <= i < events.len() && (#[trigger] events[i]).event_id == id;
            if i < fewer.len() {
                assert(fewer[i].event_id == id);
            }
        }
        assert(events[events.len() - 1].event_id == last);
        let longer = earlier.push(last);
        assert(longer[earlier.len() as int] == last);
        if earlier.contains(id) {
            let i = choose|i: int| 0 <= i < earlier.len() && earlier[i] == id;
            assert(longer[i] == id);
        }
        if longer.contains(id) && id != last {
            let i = choose|i: int| 0 <= i < longer.len() && longer[i] == id;
            assert(earlier[i] == id);
        }
    }
}

proof fn lemma_round_hosts(
    round: Round,
    hosts: Seq<Seq<char>>,
    snapshots: Map<Seq<char>, SnapshotView>,
)
    ensures
        round_over(round, hosts, snapshots).hosts == round.hosts.union(hosts.to_set()),
    decreases hosts.len(),
{
    if hosts.len() == 0 {
        assert(hosts.to_set() =~= Set::empty());
        assert(round.hosts.union(hosts.to_set()) =~= round.hosts);
    } else {
        let fewer = hosts.drop_last();
        lemma_round_hosts(round, fewer, snapshots);
        assert(fewer.push(hosts.last()) =~= hosts);
        table::lemma_to_set_push(fewer, hosts.last());
        assert(round.hosts.union(fewer.to_set()).insert(hosts.last()) =~= round.hosts.union(
            hosts.to_set(),
        ));
    }
}

/// One of the hosts has an event of that identifier.
pub open spec fn hosts_name_event(
    hosts: Seq<Seq<char>>,
    snapshots: Map<Seq<char>, SnapshotView>,
    id: Seq<char>,
) -> bool {
    exists|j: int|
        0 <= j < hosts.len() && names_event(snapshots[#[trigger] hosts[j]].events, id)
}

proof fn lemma_round_seen(
    round: Round,
    hosts: Seq<Seq<char>>,
    snapshots: Map<Seq<char>, SnapshotView>,
    id: Seq<char>,
)
    ensures
        round_over(round, hosts, snapshots).seen.contains(id) == (round.seen.contains(id)
            || hosts_name_event(hosts, snapshots, id)),
    decreases hosts.len(),
{
    if hosts.len() > 0 {
        let fewer = hosts.drop_last();
        let host = hosts.last();
        lemma_round_seen(round, fewer, snapshots, id);
        lemma_seen_after(round_over(round, fewer, snapshots).seen, snapshots[host].events, id);
        if hosts_name_event(fewer, snapshots, id) {
            let j = choose|j: int|
                0 <= j < fewer.len() && names_event(snapshots[#[trigger] fewer[j]].events, id);
            assert(names_event(snapshots[hosts[j]].events, id));
        }
        if hosts_name_event(hosts, snapshots, id) {
            let j = choose|j: int|
                0 <= j < hosts.len() && names_event(snapshots[#[trigger] hosts[j]].events, id);
            if j < fewer.len() {
                assert(names_event(snapshots[fewer[j]].events, id));
            }
        }
        assert(hosts[hosts.len() - 1] == host);
    }
}

/// A host that has been reached counts as known from then on.
pub proof fn lemma_reached_hosts_are_known(
    cache: CacheView,
    snapshots: Map<Seq<char>, SnapshotView>,
)
    requires
        snapshots.dom().finite(),
    ensures
        cache_after(cache, snapshots).initialized_hosts.to_set()
            == cache.initialized_hosts.to_set().union(snapshots.dom()),
{
    let hosts = table::sorted_keys(snapshots.dom());
    table::lemma_sorted_keys_exist(snapshots.dom());
    let known = cache.initialized_hosts.to_set();
    lemma_round_hosts(
        Round { hosts: known, seen: cache.seen_events, notifications: Seq::empty() },
        hosts,
        snapshots,
    );
    vstd::seq_lib::seq_to_set_is_finite(cache.initialized_hosts);
    table::lemma_sorted_keys_exist(known.union(snapshots.dom()));
}

/// The notification is that of an event in the snapshot of its host. The host was known
/// before, the event was not; the event calls for the user, and its session is still in the
/// state that the event reports.
pub open spec fn is_news(
    cache: CacheView,
    snapshots: Map<Seq<char>, SnapshotView>,
    notification: NotificationView,
) -> bool {
    exists|host: Seq<char>, i: int|
        #![trigger snapshots[host].events[i]]
        {
            &&& snapshots.dom().contains(host)
            &&& cache.initialized_hosts.contains(host)
            &&& 0 <= i < snapshots[host].events.len()
            &&& !cache.seen_events.contains(snapshots[host].events[i].event_id)
            &&& calls_for_user(snapshots[host].events[i], snapshots[host].runs)
            &&& notification == notification_of(host, snapshots[host].events[i])
        }
}

proof fn lemma_news_of_host(
    cache: CacheView,
    snapshots: Map<Seq<char>, SnapshotView>,
    host: Seq<char>,
    seen: Seq<Seq<char>>,
    n: int,
    k: int,
)
    requires
        snapshots.dom().contains(host),
        cache.initialized_hosts.contains(host),
        forall|id: Seq<char>| #[trigger] cache.seen_events.contains(id) ==> seen.contains(id),
        0 <= n <= snapshots[host].events.len(),
        0 <= k < news(seen, host, snapshots[host].runs, snapshots[host].events.take(n)).len(),
    ensures
        is_news(
            cache,
            snapshots,
            news(seen, host, snapshots[host].runs, snapshots[host].events.take(n))[k],
        ),
    decreases n,
{
    let events = snapshots[host].events;
    let runs = snapshots[host].runs;
    assert(n > 0);
    assert(events.take(n).drop_last() =~= events.take(n - 1));
    let fewer = news(seen, host, runs, events.take(n - 1));
    let all = news(seen, host, runs, events.take(n));
    if k < fewer.len() {
        lemma_news_of_host(cache, snapshots, host, seen, n - 1, k);
        assert(all[k] == fewer[k]);
    } else {
        lemma_seen_after(seen, events.take(n - 1), events[n - 1].event_id);
        assert(all[k] == notification_of(host, snapshots[host].events[n - 1]));
    }
}

proof fn lemma_news_of_round(
    cache: CacheView,
    round: Round,
    hosts: Seq<Seq<char>>,
    snapshots: Map<Seq<char>, SnapshotView>,
    k: int,
)
    requires
        table::ascending(hosts),
        hosts.to_set().subset_of(snapshots.dom()),
        round.hosts == cache.initialized_hosts.to_set(),
        round.seen == cache.seen_events,
        round.notifications.len() == 0,
        0 <= k < round_over(round, hosts, snapshots).notifications.len(),
    ensures
        is_news(cache, snapshots, round_over(round, hosts, snapshots).notifications[k]),
    decreases hosts.len(),
{
    assert(hosts.len() > 0);
    let fewer = hosts.drop_last();
    let host = hosts.last();
    assert(fewer.push(host) =~= hosts);
    table::lemma_to_set_push(fewer, host);
    assert(hosts.to_set().contains(host));
    assert(forall|i: int| 0 <= i < fewer.len() ==> #[trigger] fewer[i] == hosts[i]);
    assert(table::ascending(fewer));
    let earlier = round_over(round, fewer, snapshots);
    let all = round_over(round, hosts, snapshots);
    if k < earlier.notifications.len() {
        lemma_news_of_round(cache, round, fewer, snapshots, k);
        assert(all.notifications[k] == earlier.notifications[k]);
    } else {
        let events = snapshots[host].events;
        lemma_round_hosts(round, fewer, snapshots);
        if fewer.to_set().contains(host) {
            let i = choose|i: int| 0 <= i < fewer.len() && fewer[i] == host;
            assert(text::before(hosts[i], hosts[hosts.len() - 1]));
            text::lemma_before_irreflexive(host);
        }
        assert forall|id: Seq<char>| #[trigger]
            cache.seen_events.contains(id) implies earlier.seen.contains(id) by {
            lemma_round_seen(round, fewer, snapshots, id);
        }
        assert(events.take(events.len() as int) =~= events);
        lemma_news_of_host(
            cache,
            snapshots,
            host,
            earlier.seen,
            events.len() as int,
            k - earlier.notifications.len(),
        );
        assert(all.notifications[k] == news(earlier.seen, host, snapshots[host].runs, events)[k
            - earlier.notifications.len()]);
    }
}

/// Every notification is of an event on a host that was known before. The event has not been
/// seen, is ready, waits for an approval or is an error, and its session has not moved on
/// since.
pub proof fn lemma_notifications_are_news(
    cache: CacheView,
    snapshots: Map<Seq<char>, SnapshotView>,
    enabled: bool,
    k: int,
)
    requires
        snapshots.dom().finite(),
        0 <= k < notifications_of(cache, snapshots, enabled).len(),
    ensures
        is_news(cache, snapshots, notifications_of(cache, snapshots, enabled)[k]),
{
    table::lemma_sorted_keys_exist(snapshots.dom());
    lemma_news_of_round(
        cache,
        Round {
            hosts: cache.initialized_hosts.to_set(),
            seen: cache.seen_events,
            notifications: Seq::empty(),
        },
        table::sorted_keys(snapshots.dom()),
        snapshots,
        k,
    );
}

/// Every event of the snapshots is among those seen.
pub open spec fn all_seen(seen: Seq<Seq<char>>, snapshots: Map<Seq<char>, SnapshotView>) -> bool {
    forall|host: Seq<char>, i: int|
        #![trigger snapshots[host].events[i]]
        snapshots.dom().contains(host) && 0 <= i < snapshots[host].events.len() ==> seen.contains(
            snapshots[host].events[i].event_id,
        )
}

/// Events that have been seen before are no news.
pub proof fn lemma_seen_events_are_silent(
    cache: CacheView,
    snapshots: Map<Seq<char>, SnapshotView>,
    enabled: bool,
)
    requires
        snapshots.dom().finite(),
        all_seen(cache.seen_events, snapshots),
    ensures
        notifications_of(cache, snapshots, enabled).len() == 0,
{
    if notifications_of(cache, snapshots, enabled).len() > 0 {
        lemma_notifications_are_news(cache, snapshots, enabled, 0);
    }
}

proof fn lemma_poll_sees_all(cache: CacheView, snapshots: Map<Seq<char>, SnapshotView>)
    requires
        snapshots.dom().finite(),
    ensures
        all_seen(round_of(cache, snapshots).seen, snapshots),
{
    let hosts = table::sorted_keys(snapshots.dom());
    table::lemma_sorted_keys_exist(snapshots.dom());
    let start = Round {
        hosts: cache.initialized_hosts.to_set(),
        seen: cache.seen_events,
        notifications: Seq::empty(),
    };
    assert forall|host: Seq<char>, i: int|
        #![trigger snapshots[host].events[i]]
        snapshots.dom().contains(host) && 0 <= i < snapshots[host].events.len() implies round_of(
        cache,
        snapshots,
    ).seen.contains(snapshots[host].events[i].event_id) by {
        let id = snapshots[host].events[i].event_id;
        lemma_round_seen(start, hosts, snapshots, id);
        assert(hosts.to_set().contains(host));
        let j = choose|j: int| 0 <= j < hosts.len() && hosts[j] == host;
        assert(names_event(snapshots[hosts[j]].events, id));
    }
}

/// The same snapshots a second time are no news, as long as every event that has been seen
/// is still remembered.
pub proof fn lemma_second_poll_is_silent(
    cache: CacheView,
    snapshots: Map<Seq<char>, SnapshotView>,
    enabled: bool,
)
    requires
        snapshots.dom().finite(),
        round_of(cache, snapshots).seen.len() <= SEEN_LIMIT,
    ensures
        notifications_of(cache_after(cache, snapshots), snapshots, enabled).len() == 0,
{
    lemma_poll_sees_all(cache, snapshots);
    lemma_seen_events_are_silent(cache_after(cache, snapshots), snapshots, enabled);
}

proof fn lemma_nothing_new(seen: Seq<Seq<char>>, events: Seq<EventView>)
    requires
        forall|i: int| 0 <= i < events.len() ==> seen.contains((#[trigger] events[i]).event_id),
    ensures
        seen_after(seen, events) == seen,
    decreases events.len(),
{
    if events.len() > 0 {
        let fewer = events.drop_last();
        assert forall|i: int| 0 <= i < fewer.len() implies seen.contains(
            (#[trigger] fewer[i]).event_id,
        ) by {
            assert(fewer[i] == events[i]);
        }
        lemma_nothing_new(seen, fewer);
        assert(seen.contains(events[events.len() - 1].event_id));
    }
}

proof fn lemma_round_over_seen(
    round: Round,
    hosts: Seq<Seq<char>>,
    snapshots: Map<Seq<char>, SnapshotView>,
)
    requires
        all_seen(round.seen, snapshots),
        forall|j: int| 0 <= j < hosts.len() ==> snapshots.dom().contains(#[trigger] hosts[j]),
    ensures
        round_over(round, hosts, snapshots).seen == round.seen,
    decreases hosts.len(),
{
    if hosts.len() > 0 {
        let fewer = hosts.drop_last();
        assert(forall|j: int| 0 <= j < fewer.len() ==> #[trigger] fewer[j] == hosts[j]);
        lemma_round_over_seen(round, fewer, snapshots);
        let host = hosts[hosts.len() - 1];
        let events = snapshots[host].events;
        assert forall|i: int| 0 <= i < events.len() implies round.seen.contains(
            (#[trigger] events[i]).event_id,
        ) by {
            assert(snapshots[host].events[i] == events[i]);
        }
        lemma_nothing_new(round.seen, events);
    }
}

/// The same snapshots a second time leave all that is remembered as it is, as long as every
/// event that has been seen is still remembered.
pub proof fn lemma_second_poll_changes_nothing(
    cache: CacheView,
    snapshots: Map<Seq<char>, SnapshotView>,
)
    requires
        snapshots.dom().finite(),
        round_of(cache, snapshots).seen.len() <= SEEN_LIMIT,
    ensures
        cache_after(cache_after(cache, snapshots), snapshots) == cache_after(cache, snapshots),
{
    let after = cache_after(cache, snapshots);
    let again = cache_after(after, snapshots);
    let hosts = table::sorted_keys(snapshots.dom());
    table::lemma_sorted_keys_exist(snapshots.dom());
    let start = Round {
        hosts: after.initialized_hosts.to_set(),
        seen: after.seen_events,
        notifications: Seq::empty(),
    };
    lemma_poll_sees_all(cache, snapshots);
    assert forall|j: int| 0 <= j < hosts.len() implies snapshots.dom().contains(
        #[trigger] hosts[j],
    ) by {
        assert(hosts.to_set().contains(hosts[j]));
    }
    lemma_round_over_seen(start, hosts, snapshots);
    assert(again.seen_events == after.seen_events);
    let known = Round {
        hosts: cache.initialized_hosts.to_set(),
        seen: cache.seen_events,
        notifications: Seq::empty(),
    };
    lemma_round_hosts(known, hosts, snapshots);
    lemma_round_hosts(start, hosts, snapshots);
    lemma_reached_hosts_are_known(cache, snapshots);
    assert(start.hosts.union(hosts.to_set()) =~= known.hosts.union(hosts.to_set()));
    assert(again.last_snapshots =~= after.last_snapshots);
    assert(again =~= after);
}

/// The first snapshot of a host gives no notification: it only tells what is old.
pub proof fn lemma_first_look_is_silent(
    cache: CacheView,
    snapshots: Map<Seq<char>, SnapshotView>,
    enabled: bool,
)
    requires
        snapshots.dom().finite(),
        forall|host: Seq<char>| #[trigger]
            snapshots.dom().contains(host) ==> !cache.initialized_hosts.contains(host),
    ensures
        notifications_of(cache, snapshots, enabled).len() == 0,
{
    if notifications_of(cache, snapshots, enabled).len() > 0 {
        lemma_notifications_are_news(cache, snapshots, enabled, 0);
    }
}

proof fn lemma_news_found(
    seen: Seq<Seq<char>>,
    host: Seq<char>,
    runs: Seq<RunView>,
    events: Seq<EventView>,
    i: int,
)
    requires
        0 <= i < events.len(),
        calls_for_user(events[i], runs),
        !seen.contains(events[i].event_id),
        forall|j: int| 0 <= j < i ==> (#[trigger] events[j]).event_id != events[i].event_id,
    ensures
        news(seen, host, runs, events).contains(notification_of(host, events[i])),
    decreases events.len(),
{
    let fewer = events.drop_last();
    let earlier = news(seen, host, runs, fewer);
    let all = news(seen, host, runs, events);
    if i < fewer.len() {
        assert(fewer[i] == events[i]);
        assert forall|j: int| 0 <= j < i implies (#[trigger] fewer[j]).event_id
            != fewer[i].event_id by {
            assert(fewer[j] == events[j]);
        }
        lemma_news_found(seen, host, runs, fewer, i);
        let k = choose|k: int| 0 <= k < earlier.len() && earlier[k] == notification_of(
            host,
            events[i],
        );
        assert(all[k] == earlier[k]);
    } else {
        lemma_seen_after(seen, fewer, events[i].event_id);
        if names_event(fewer, events[i].event_id) {
            let j = choose|j: int|
                0 <= j < fewer.len() && (#[trigger] fewer[j]).event_id == events[i].event_id;
            assert(events[j].event_id == events[i].event_id);
        }
        assert(all[earlier.len() as int] == notification_of(host, events[i]));
    }
}

proof fn lemma_round_found(
    round: Round,
    hosts: Seq<Seq<char>>,
    snapshots: Map<Seq<char>, SnapshotView>,
    host: Seq<char>,
    i: int,
)
    requires
        table::ascending(hosts),
        hosts.contains(host),
        round.hosts.contains(host),
        0 <= i < snapshots[host].events.len(),
        calls_for_user(snapshots[host].events[i], snapshots[host].runs),
        !round.seen.contains(snapshots[host].events[i].event_id),
        forall|j: int|
            0 <= j < i ==> (#[trigger] snapshots[host].events[j]).event_id
                != snapshots[host].events[i].event_id,
        forall|k: int|
            0 <= k < hosts.len() && hosts[k] != host ==> !names_event(
                snapshots[#[trigger] hosts[k]].events,
                snapshots[host].events[i].event_id,
            ),
    ensures
        round_over(round, hosts, snapshots).notifications.contains(
            notification_of(host, snapshots[host].events[i]),
        ),
    decreases hosts.len(),
{
    let fewer = hosts.drop_last();
    let last = hosts.last();
    let event = snapshots[host].events[i];
    let earlier = round_over(round, fewer, snapshots);
    let all = round_over(round, hosts, snapshots);
    let at = choose|k: int| 0 <= k < hosts.len() && hosts[k] == host;
    assert(forall|k: int| 0 <= k < fewer.len() ==> #[trigger] fewer[k] == hosts[k]);
    if at < fewer.len() {
        assert(fewer[at] == host);
        assert(table::ascending(fewer));
        lemma_round_found(round, fewer, snapshots, host, i);
        let k = choose|k: int|
            0 <= k < earlier.notifications.len() && earlier.notifications[k] == notification_of(
                host,
                event,
            );
        assert(all.notifications[k] == earlier.notifications[k]);
    } else {
        lemma_round_seen(round, fewer, snapshots, event.event_id);
        lemma_round_hosts(round, fewer, snapshots);
        if hosts_name_event(fewer, snapshots, event.event_id) {
            let j = choose|j: int|
                0 <= j < fewer.len() && names_event(
                    snapshots[#[trigger] fewer[j]].events,
                    event.event_id,
                );
            assert(hosts[j] == fewer[j]);
            assert(text::before(hosts[j], hosts[hosts.len() - 1]));
            text::lemma_before_irreflexive(host);
        }
        lemma_news_found(earlier.seen, host, snapshots[host].runs, snapshots[host].events, i);
        let found = news(earlier.seen, host, snapshots[host].runs, snapshots[host].events);
        let k = choose|k: int| 0 <= k < found.len() && found[k] == notification_of(host, event);
        assert(all.notifications[earlier.notifications.len() + k] == found[k]);
    }
}

/// On a host that is known, an event that has not been seen before, calls for the user and
/// still describes its session gives its notification. (Its identifier is its own.)
pub proof fn lemma_new_event_notifies(
    cache: CacheView,
    snapshots: Map<Seq<char>, SnapshotView>,
    host: Seq<char>,
    i: int,
)
    requires
        snapshots.dom().finite(),
        snapshots.dom().contains(host),
        cache.initialized_hosts.contains(host),
        0 <= i < snapshots[host].events.len(),
        calls_for_user(snapshots[host].events[i], snapshots[host].runs),
        !cache.seen_events.contains(snapshots[host].events[i].event_id),
        forall|j: int|
            0 <= j < i ==> (#[trigger] snapshots[host].events[j]).event_id
                != snapshots[host].events[i].event_id,
        forall|other: Seq<char>|
            snapshots.dom().contains(other) && other != host ==> !names_event(
                (#[trigger] snapshots[other]).events,
                snapshots[host].events[i].event_id,
            ),
    ensures
        notifications_of(cache, snapshots, true).contains(
            notification_of(host, snapshots[host].events[i]),
        ),
{
    let hosts = table::sorted_keys(snapshots.dom());
    table::lemma_sorted_keys_exist(snapshots.dom());
    let start = Round {
        hosts: cache.initialized_hosts.to_set(),
        seen: cache.seen_events,
        notifications: Seq::empty(),
    };
    assert(hosts.to_set().contains(host));
    assert forall|k: int| 0 <= k < hosts.len() && hosts[k] != host implies !names_event(
        snapshots[#[trigger] hosts[k]].events,
        snapshots[host].events[i].event_id,
    ) by {
        assert(hosts.to_set().contains(hosts[k]));
    }
    lemma_round_found(start, hosts, snapshots, host, i);
}

/// A host that could not be reached shows what was last known of it; one that was reached
/// shows its fresh snapshot.
pub proof fn lemma_last_known(
    cache: CacheView,
    snapshots: Map<Seq<char>, SnapshotView>,
    hosts: Seq<Seq<char>>,
    host: Seq<char>,
)
    requires
        hosts.contains(host),
    ensures
        snapshots.dom().contains(host) ==> last_known(cache, snapshots, hosts).dom().contains(host)
            && last_known(cache, snapshots, hosts)[host] == snapshots[host],
        !snapshots.dom().contains(host) && cache.last_snapshots.dom().contains(host) ==> last_known(
            cache,
            snapshots,
            hosts,
        ).dom().contains(host) && last_known(cache, snapshots, hosts)[host]
            == cache.last_snapshots[host],
        !snapshots.dom().contains(host) && !cache.last_snapshots.dom().contains(host)
            ==> !last_known(cache, snapshots, hosts).dom().contains(host),
{
    assert(hosts.to_set().contains(host));
}

/// The last record of a session, in the order of the list, is the one at that place.
pub open spec fn is_last_record(runs: Seq<RunView>, run_id: Seq<char>, r: int) -> bool {
    &&& 0 <= r < runs.len()
    &&& runs[r].run_id == run_id
    &&& forall|later: int| r < later < runs.len() ==> (#[trigger] runs[later]).run_id != run_id
}

proof fn lemma_current_state(runs: Seq<RunView>, run_id: Seq<char>, r: int)
    requires
        is_last_record(runs, run_id, r),
    ensures
        current_state(runs, run_id) == Some(runs[r].state),
    decreases runs.len(),
{
    if r < runs.len() - 1 {
        let fewer = runs.drop_last();
        assert(runs[runs.len() - 1] == runs.last());
        assert forall|later: int| r < later < fewer.len() implies (#[trigger] fewer[later]).run_id
            != run_id by {
            assert(fewer[later] == runs[later]);
        }
        lemma_current_state(fewer, run_id, r);
    }
}

proof fn lemma_current_state_at(runs: Seq<RunView>, run_id: Seq<char>) -> (r: int)
    requires
        current_state(runs, run_id) is Some,
    ensures
        is_last_record(runs, run_id, r),
        current_state(runs, run_id) == Some(runs[r].state),
    decreases runs.len(),
{
    if runs.last().run_id == run_id {
        runs.len() - 1
    } else {
        let fewer = runs.drop_last();
        let r = lemma_current_state_at(fewer, run_id);
        assert forall|later: int| r < later < runs.len() implies (#[trigger] runs[later]).run_id
            != run_id by {
            if later < fewer.len() {
                assert(fewer[later] == runs[later]);
            } else {
                assert(runs[later] == runs.last());
            }
        }
        assert(fewer[r] == runs[r]);
        r
    }
}

/// The words of the notification of an event: its state in the title; the host, the agent and
/// the task in the message, or the project where there is no task.
pub open spec fn announces(
    notification: NotificationView,
    host: Seq<char>,
    event: EventView,
) -> bool {
    &&& notification.title == "LLM Watch: "@ + text::upper(event.state)
    &&& event.task.len() > 0 ==> notification.message == host + " · "@ + capitalized(event.provider)
        + " · "@ + event.task
    &&& event.task.len() == 0 && event.project.len() > 0 ==> notification.message == host + " · "@
        + capitalized(event.provider) + " · "@ + event.project
    &&& event.task.len() == 0 && event.project.len() == 0 ==> notification.message == host + " · "@
        + capitalized(event.provider) + " · "@ + "session"@
}

/// An event on a known host that is seen for the first time, is ready, waits for an approval or
/// is an error, and reports the state that the last record of its session has, is announced,
/// whatever else it says. (Its identifier is its own.)
pub proof fn lemma_event_is_announced(
    cache: CacheView,
    snapshots: Map<Seq<char>, SnapshotView>,
    host: Seq<char>,
    i: int,
    r: int,
)
    requires
        snapshots.dom().finite(),
        snapshots.dom().contains(host),
        cache.initialized_hosts.contains(host),
        0 <= i < snapshots[host].events.len(),
        ({
            let event = snapshots[host].events[i];
            &&& event.state == "ready"@ || event.state == "approval"@ || event.state == "error"@
            &&& is_last_record(snapshots[host].runs, event.run_id, r)
            &&& snapshots[host].runs[r].state == event.state
            &&& !cache.seen_events.contains(event.event_id)
            &&& forall|j: int|
                0 <= j < i ==> (#[trigger] snapshots[host].events[j]).event_id != event.event_id
            &&& forall|other: Seq<char>|
                snapshots.dom().contains(other) && other != host ==> !names_event(
                    (#[trigger] snapshots[other]).events,
                    event.event_id,
                )
        }),
    ensures
        exists|k: int|
            0 <= k < notifications_of(cache, snapshots, true).len() && announces(
                #[trigger] notifications_of(cache, snapshots, true)[k],
                host,
                snapshots[host].events[i],
            ),
{
    let event = snapshots[host].events[i];
    lemma_current_state(snapshots[host].runs, event.run_id, r);
    lemma_new_event_notifies(cache, snapshots, host, i);
    let sent = notifications_of(cache, snapshots, true);
    let k = choose|k: int| 0 <= k < sent.len() && sent[k] == notification_of(host, event);
    assert(announces(sent[k], host, event));
}

/// What is announced is an event of a host that was known before: one that has not been seen,
/// is ready, waits for an approval or is an error, and reports the state that the last record
/// of its session has.
pub proof fn lemma_what_is_announced(
    cache: CacheView,
    snapshots: Map<Seq<char>, SnapshotView>,
    enabled: bool,
    k: int,
)
    requires
        snapshots.dom().finite(),
        0 <= k < notifications_of(cache, snapshots, enabled).len(),
    ensures
        enabled,
        exists|host: Seq<char>, i: int, r: int|
            #![trigger snapshots[host].events[i], snapshots[host].runs[r]]
            {
                let event = snapshots[host].events[i];
                &&& snapshots.dom().contains(host)
                &&& cache.initialized_hosts.contains(host)
                &&& 0 <= i < snapshots[host].events.len()
                &&& !cache.seen_events.contains(event.event_id)
                &&& event.state == "ready"@ || event.state == "approval"@ || event.state
                    == "error"@
                &&& is_last_record(snapshots[host].runs, event.run_id, r)
                &&& snapshots[host].runs[r].state == event.state
                &&& announces(notifications_of(cache, snapshots, enabled)[k], host, event)
            },
{
    lemma_notifications_are_news(cache, snapshots, enabled, k);
    let sent = notifications_of(cache, snapshots, enabled)[k];
    let (host, i) = choose|host: Seq<char>, i: int|
        #![trigger snapshots[host].events[i]]
        {
            &&& snapshots.dom().contains(host)
            &&& cache.initialized_hosts.contains(host)
            &&& 0 <= i < snapshots[host].events.len()
            &&& !cache.seen_events.contains(snapshots[host].events[i].event_id)
            &&& calls_for_user(snapshots[host].events[i], snapshots[host].runs)
            &&& sent == notification_of(host, snapshots[host].events[i])
        };
    let event = snapshots[host].events[i];
    let r = lemma_current_state_at(snapshots[host].runs, event.run_id);
    assert(snapshots[host].runs[r].state == event.state);
    assert(announces(sent, host, event));
}

/// What happens on a host is announced in the order of its events: looking at some events and
/// then at further ones is looking at all of them.
pub proof fn lemma_news_in_order(
    seen: Seq<Seq<char>>,
    host: Seq<char>,
    runs: Seq<RunView>,
    a: Seq<EventView>,
    b: Seq<EventView>,
)
    ensures
        seen_after(seen, a + b) == seen_after(seen_after(seen, a), b),
        news(seen, host, runs, a + b) == news(seen, host, runs, a) + news(
            seen_after(seen, a),
            host,
            runs,
            b,
        ),
    decreases b.len(),
{
    if b.len() == 0 {
        assert(a + b =~= a);
        assert(news(seen, host, runs, a) + news(seen_after(seen, a), host, runs, b) =~= news(
            seen,
            host,
            runs,
            a,
        ));
    } else {
        lemma_news_in_order(seen, host, runs, a, b.drop_last());
        assert((a + b).drop_last() =~= a + b.drop_last());
        assert((a + b).last() == b.last());
        assert(news(seen, host, runs, a + b) =~= news(seen, host, runs, a) + news(
            seen_after(seen, a),
            host,
            runs,
            b,
        ));
    }
}

/// One event is seen once, after those that were seen before it, and is announced at most
/// once.
pub proof fn lemma_news_of_one_event(
    seen: Seq<Seq<char>>,
    host: Seq<char>,
    runs: Seq<RunView>,
    event: EventView,
)
    ensures
        seen.contains(event.event_id) ==> seen_after(seen, seq![event]) == seen && news(
            seen,
            host,
            runs,
            seq![event],
        ).len() == 0,
        !seen.contains(event.event_id) ==> seen_after(seen, seq![event]) == seen.push(
            event.event_id,
        ) && news(seen, host, runs, seq![event]).len() <= 1,
{
    let one = seq![event];
    let none = one.drop_last();
    assert(none.len() == 0);
    assert(one.last() == event);
    assert(seen_after(seen, none) == seen);
    assert(news(seen, host, runs, none).len() == 0);
}

proof fn lemma_seen_is_kept(seen: Seq<Seq<char>>, events: Seq<EventView>)
    ensures
        seen.is_prefix_of(seen_after(seen, events)),
    decreases events.len(),
{
    if events.len() > 0 {
        lemma_seen_is_kept(seen, events.drop_last());
        let earlier = seen_after(seen, events.drop_last());
        assert(seen =~= earlier.push(events.last().event_id).subrange(0, seen.len() as int));
    } else {
        assert(seen =~= seen.subrange(0, seen.len() as int));
    }
}

proof fn lemma_round_keeps_seen(
    round: Round,
    hosts: Seq<Seq<char>>,
    snapshots: Map<Seq<char>, SnapshotView>,
)
    ensures
        round.seen.is_prefix_of(round_over(round, hosts, snapshots).seen),
    decreases hosts.len(),
{
    if hosts.len() > 0 {
        let earlier = round_over(round, hosts.drop_last(), snapshots).seen;
        lemma_round_keeps_seen(round, hosts.drop_last(), snapshots);
        lemma_seen_is_kept(earlier, snapshots[hosts.last()].events);
        let all = round_over(round, hosts, snapshots).seen;
        assert(round.seen =~= all.subrange(0, round.seen.len() as int)) by {
            assert forall|i: int| 0 <= i < round.seen.len() implies round.seen[i] == all[i] by {
                assert(earlier[i] == round.seen[i]);
                assert(all[i] == earlier[i]);
            }
        }
    } else {
        assert(round.seen =~= round.seen.subrange(0, round.seen.len() as int));
    }
}

/// What is remembered after a poll: every host that has been reached, in ascending order; the
/// snapshot that each host gave last; and the events that were seen, those of this poll behind
/// the earlier ones, of which the latest 5000 are kept.
pub proof fn lemma_what_is_remembered(
    cache: CacheView,
    snapshots: Map<Seq<char>, SnapshotView>,
    host: Seq<char>,
    id: Seq<char>,
)
    requires
        snapshots.dom().finite(),
    ensures
        ({
            let after = cache_after(cache, snapshots);
            let seen = round_of(cache, snapshots).seen;
            &&& table::ascending(after.initialized_hosts)
            &&& after.initialized_hosts.contains(host) == (cache.initialized_hosts.contains(host)
                || snapshots.dom().contains(host))
            &&& after.last_snapshots.dom().contains(host) == (cache.last_snapshots.dom().contains(
                host,
            ) || snapshots.dom().contains(host))
            &&& snapshots.dom().contains(host) ==> after.last_snapshots[host] == snapshots[host]
            &&& !snapshots.dom().contains(host) && cache.last_snapshots.dom().contains(host)
                ==> after.last_snapshots[host] == cache.last_snapshots[host]
            &&& cache.seen_events.is_prefix_of(seen)
            &&& seen.contains(id) == (cache.seen_events.contains(id) || exists|other: Seq<char>|
                snapshots.dom().contains(other) && names_event(
                    (#[trigger] snapshots[other]).events,
                    id,
                ))
            &&& seen.len() <= 5000 ==> after.seen_events == seen
            &&& seen.len() > 5000 ==> after.seen_events == seen.skip(seen.len() - 5000)
        }),
{
    let hosts = table::sorted_keys(snapshots.dom());
    table::lemma_sorted_keys_exist(snapshots.dom());
    let start = Round {
        hosts: cache.initialized_hosts.to_set(),
        seen: cache.seen_events,
        notifications: Seq::empty(),
    };
    lemma_round_hosts(start, hosts, snapshots);
    lemma_round_keeps_seen(start, hosts, snapshots);
    lemma_round_seen(start, hosts, snapshots, id);
    vstd::seq_lib::seq_to_set_is_finite(cache.initialized_hosts);
    let known = cache.initialized_hosts.to_set().union(hosts.to_set());
    table::lemma_sorted_keys_exist(known);
    let after = cache_after(cache, snapshots);
    assert(after.initialized_hosts.to_set() == known);
    assert(known.contains(host) == after.initialized_hosts.contains(host));
    if hosts_name_event(hosts, snapshots, id) {
        let j = choose|j: int|
            0 <= j < hosts.len() && names_event(snapshots[#[trigger] hosts[j]].events, id);
        assert(hosts.to_set().contains(hosts[j]));
        assert(names_event(snapshots[hosts[j]].events, id));
    }
    if exists|other: Seq<char>|
        snapshots.dom().contains(other) && names_event((#[trigger] snapshots[other]).events, id) {
        let other = choose|other: Seq<char>|
            snapshots.dom().contains(other) && names_event(
                (#[trigger] snapshots[other]).events,
                id,
            );
        assert(hosts.to_set().contains(other));
        let j = choose|j: int| 0 <= j < hosts.len() && hosts[j] == other;
        assert(names_event(snapshots[hosts[j]].events, id));
    }
}

/// Of the hosts that were not reached only those that are watched are shown.
pub proof fn lemma_only_watched_are_shown(
    cache: CacheView,
    snapshots: Map<Seq<char>, SnapshotView>,
    hosts: Seq<Seq<char>>,
    host: Seq<char>,
)
    requires
        !hosts.contains(host),
        !snapshots.dom().contains(host),
    ensures
        !last_known(cache, snapshots, hosts).dom().contains(host),
{
}

/// The user's notifier is called with its own words, then the title and the message; without
/// words it is not called.
pub proof fn lemma_custom_command(parts: Seq<Seq<char>>, title: Seq<char>, message: Seq<char>)
    ensures
        parts.len() == 0 ==> custom_command(Some(parts), title, message) is None,
        parts.len() > 0 ==> custom_command(Some(parts), title, message) == Some(
            parts.push(title).push(message),
        ),
        custom_command(None, title, message) is None,
{
    assert(parts + seq![title, message] =~= parts.push(title).push(message));
}

/// The first notifier at hand is called, with the title and the message; where there is none
/// nothing is.
pub proof fn lemma_stock_command(notifiers: Notifiers, title: Seq<char>, message: Seq<char>)
    ensures
        ({
            let command = stock_command(notifiers, title, message);
            &&& command is Some == (notifiers.terminal_notifier || notifiers.osascript
                || notifiers.notify_send)
            &&& notifiers.terminal_notifier ==> command->Some_0[0] == "terminal-notifier"@
                && command->Some_0.contains(title) && command->Some_0.contains(message)
            &&& !notifiers.terminal_notifier && notifiers.osascript ==> command->Some_0[0]
                == "osascript"@ && command->Some_0[4] == title && command->Some_0[5] == message
            &&& !notifiers.terminal_notifier && !notifiers.osascript && notifiers.notify_send
                ==> command->Some_0 == seq!["notify-send"@, title, message]
        }),
{
    if notifiers.terminal_notifier {
        let words = stock_command(notifiers, title, message)->Some_0;
        assert(words[2] == title && words[4] == message);
    }
}

proof fn lemma_news_count(
    seen: Seq<Seq<char>>,
    host: Seq<char>,
    runs: Seq<RunView>,
    events: Seq<EventView>,
)
    ensures
        news(seen, host, runs, events).len() + seen.len() <= seen_after(seen, events).len(),
    decreases events.len(),
{
    if events.len() > 0 {
        lemma_news_count(seen, host, runs, events.drop_last());
    }
}

proof fn lemma_round_count(
    round: Round,
    hosts: Seq<Seq<char>>,
    snapshots: Map<Seq<char>, SnapshotView>,
)
    ensures
        round_over(round, hosts, snapshots).notifications.len() + round.seen.len() <= round_over(
            round,
            hosts,
            snapshots,
        ).seen.len() + round.notifications.len(),
    decreases hosts.len(),
{
    if hosts.len() > 0 {
        let earlier = round_over(round, hosts.drop_last(), snapshots);
        let snapshot = snapshots[hosts.last()];
        lemma_round_count(round, hosts.drop_last(), snapshots);
        lemma_news_count(earlier.seen, hosts.last(), snapshot.runs, snapshot.events);
    }
}

/// No event is announced twice: there are at most as many notifications as there are events
/// that had not been seen.
pub proof fn lemma_announced_once(
    cache: CacheView,
    snapshots: Map<Seq<char>, SnapshotView>,
    enabled: bool,
)
    ensures
        notifications_of(cache, snapshots, enabled).len() + cache.seen_events.len() <= round_of(
            cache,
            snapshots,
        ).seen.len(),
{
    let start = Round {
        hosts: cache.initialized_hosts.to_set(),
        seen: cache.seen_events,
        notifications: Seq::empty(),
    };
    let hosts = table::sorted_keys(snapshots.dom());
    lemma_round_count(start, hosts, snapshots);
    lemma_round_keeps_seen(start, hosts, snapshots);
}

/// A name is written with its first character in upper case and the others as they are.
pub proof fn lemma_capitalized(c: char, rest: Seq<char>, first: Seq<char>)
    ensures
        capitalized_with(seq![c] + rest, first) == first + rest,
        capitalized(seq![c] + rest) == uppercase(c) + rest,
        capitalized_with(Seq::empty(), first) == "LLM"@,
{
    assert((seq![c] + rest).drop_first() =~= rest);
}

} // verus!
