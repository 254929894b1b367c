//! The state that each machine keeps: where it lies, what is written and what is read.
use vstd::prelude::*;

use crate::hooks;
use crate::hooks::is_activity;
use crate::model::{
    Event, EventView, Link, LinkView, RunRecord, RunView, Snapshot, DEFAULT_RETENTION_DAYS,
    LINK_TTL_SECONDS, SCHEMA_VERSION,
};
use crate::number;
use crate::number::{decimal_text, zero_padded_text};
use crate::paths;
use crate::paths::{expand_home, join};
use crate::sort;
use crate::sort::{sorted, Ranked};
use crate::split;
use crate::split::{index_of, trimmed};
use crate::table;
use crate::table::{sorted_set, Duplicate};
use crate::text;
use crate::text::{char_is_alphanumeric, comes_before, same, to_chars, to_text};
use crate::time;
use crate::time::{now, parse_time, seconds_since, format_time, Timestamp};

verus! {

// ---------------------------------------------------------------------------
// Directories
// ---------------------------------------------------------------------------

/// The environment variables that say where files lie.
pub struct Environment {
    /// `LLM_WATCH_STATE_DIR`
    pub state_dir: Option<String>,
    /// `XDG_STATE_HOME`
    pub state_home: Option<String>,
    /// `LLM_WATCH_CONFIG_DIR`
    pub config_dir: Option<String>,
    /// `XDG_CONFIG_HOME`
    pub config_home: Option<String>,
    /// `HOME`
    pub home: Option<String>,
}

pub open spec fn home_of(home: Option<String>) -> Seq<char> {
    match home {
        Some(home) => home@,
        None => "."@,
    }
}

/// The directory that a variable names, else the one below the directory that another one
/// names, else the one below the home directory.
pub open spec fn directory_for(
    own: Option<String>,
    shared: Option<String>,
    home: Option<String>,
    fallback: Seq<char>,
) -> Seq<char> {
    match own {
        Some(own) => paths::home_expanded(own@, home_of(home)),
        None => match shared {
            Some(shared) => paths::joined(
                paths::home_expanded(shared@, home_of(home)),
                "llm-watch"@,
            ),
            None => paths::joined(home_of(home), fallback),
        },
    }
}

pub open spec fn state_dir_of(environment: Environment) -> Seq<char> {
    directory_for(
        environment.state_dir,
        environment.state_home,
        environment.home,
        ".local/state/llm-watch"@,
    )
}

pub open spec fn config_dir_of(environment: Environment) -> Seq<char> {
    directory_for(
        environment.config_dir,
        environment.config_home,
        environment.home,
        ".config/llm-watch"@,
    )
}

pub fn home_dir(environment: &Environment) -> (r: String)
    ensures
        r@ == home_of(environment.home),
{
    match &environment.home {
        Some(home) => home.clone(),
        None => ".".to_owned(),
    }
}

fn directory(
    own: &Option<String>,
    shared: &Option<String>,
    environment: &Environment,
    fallback: &str,
) -> (r: String)
    ensures
        r@ == directory_for(*own, *shared, environment.home, fallback@),
{
    let home = home_dir(environment);
    match own {
        Some(own) => expand_home(own.as_str(), home.as_str()),
        None => match shared {
            Some(shared) => join(
                expand_home(shared.as_str(), home.as_str()).as_str(),
                "llm-watch",
            ),
            None => join(home.as_str(), fallback),
        },
    }
}

/// Where the state of this machine lies.
pub fn state_dir(environment: &Environment) -> (r: String)
    ensures
        r@ == state_dir_of(*environment),
{
    directory(
        &environment.state_dir,
        &environment.state_home,
        environment,
        ".local/state/llm-watch",
    )
}

/// Where the user's settings lie.
pub fn config_dir(environment: &Environment) -> (r: String)
    ensures
        r@ == config_dir_of(*environment),
{
    directory(
        &environment.config_dir,
        &environment.config_home,
        environment,
        ".config/llm-watch",
    )
}

// ---------------------------------------------------------------------------
// File names
// ---------------------------------------------------------------------------

pub const NAME_LIMIT: usize = 160;

pub open spec fn is_safe(c: char) -> bool {
    text::is_alphanumeric(c) || c == '.' || c == '_' || c == '-'
}

/// The text with a single `-` for each run of other characters than safe ones.
pub open spec fn squeezed(s: Seq<char>) -> Seq<char>
    decreases s.len(),
{
    if s.len() == 0 {
        Seq::empty()
    } else {
        let before = squeezed(s.drop_last());
        if is_safe(s.last()) {
            before.push(s.last())
        } else if s.len() > 1 && !is_safe(s[s.len() - 2]) {
            before
        } else {
            before.push('-')
        }
    }
}

/// A character that a name neither begins nor ends with.
pub open spec fn is_edge(c: char) -> bool {
    c == '-' || c == '.'
}

pub open spec fn strip_front(s: Seq<char>) -> Seq<char>
    decreases s.len(),
{
    if s.len() > 0 && is_edge(s[0]) {
        strip_front(s.drop_first())
    } else {
        s
    }
}

pub open spec fn strip_back(s: Seq<char>) -> Seq<char>
    decreases s.len(),
{
    if s.len() > 0 && is_edge(s.last()) {
        strip_back(s.drop_last())
    } else {
        s
    }
}

/// The first `n` characters, or all of them.
pub open spec fn at_most(s: Seq<char>, n: nat) -> Seq<char> {
    if s.len() > n {
        s.take(n as int)
    } else {
        s
    }
}

/// A text as part of a file name.
pub open spec fn safe(value: Seq<char>) -> Seq<char> {
    let name = strip_back(strip_front(at_most(squeezed(value), NAME_LIMIT as nat)));
    if name.len() == 0 {
        "unknown"@
    } else {
        name
    }
}

fn char_is_safe(c: char) -> (r: bool)
    ensures
        r == is_safe(c),
{
    char_is_alphanumeric(c) || c == '.' || c == '_' || c == '-'
}

proof fn lemma_squeezed_grows(s: Seq<char>, n: int)
    requires
        0 <= n <= s.len(),
    ensures
        squeezed(s.take(n)).len() <= squeezed(s).len(),
        squeezed(s.take(n)) == squeezed(s).take(squeezed(s.take(n)).len() as int),
    decreases s.len() - n,
{
    if n < s.len() {
        lemma_squeezed_grows(s, n + 1);
        let next = s.take(n + 1);
        assert(next.drop_last() =~= s.take(n));
        assert(squeezed(s.take(n)) =~= squeezed(s).take(squeezed(s.take(n)).len() as int));
    } else {
        assert(s.take(n) =~= s);
        assert(squeezed(s) =~= squeezed(s).take(squeezed(s).len() as int));
    }
}

fn squeeze(value: &str) -> (out: Vec<char>)
    ensures
        out@ == at_most(squeezed(value@), NAME_LIMIT as nat),
{
    let chars = to_chars(value);
    let ghost s = value@;
    let mut out: Vec<char> = Vec::new();
    let mut last_dash = false;
    let mut i: usize = 0;
    assert(s.take(0) =~= Seq::empty());
    while i < chars.len()
        invariant
            chars@ == s,
            s == value@,
            i <= chars@.len(),
            out@ == squeezed(s.take(i as int)),
            out@.len() < NAME_LIMIT,
            last_dash == (i > 0 && !is_safe(s[i - 1])),
        decreases chars@.len() - i,
    {
        let c = chars[i];
        proof {
            let next = s.take(i + 1);
            assert(next.drop_last() =~= s.take(i as int));
            assert(next.last() == c);
            assert(i > 0 ==> next[next.len() - 2] == s[i - 1]);
        }
        if char_is_safe(c) {
            out.push(c);
            last_dash = false;
        } else {
            if !last_dash {
                out.push('-');
            }
            last_dash = true;
        }
        i += 1;
        if out.len() >= NAME_LIMIT {
            proof {
                lemma_squeezed_grows(s, i as int);
                let n = squeezed(s.take(i as int)).len();
                assert(n == NAME_LIMIT);
                if squeezed(s).len() == n {
                    assert(squeezed(s).take(n as int) =~= squeezed(s));
                }
            }
            return out;
        }
    }
    assert(s.take(i as int) =~= s);
    out
}

fn strip(chars: &[char]) -> (r: &[char])
    ensures
        r@ == strip_back(strip_front(chars@)),
{
    let count: usize = chars.len();
    let mut from: usize = 0;
    assert(chars@.skip(0) =~= chars@);
    while from < count && (chars[from] == '-' || chars[from] == '.')
        invariant
            count == chars@.len(),
            from <= count,
            strip_front(chars@) == strip_front(chars@.skip(from as int)),
        decreases count - from,
    {
        assert(chars@.skip(from as int).drop_first() =~= chars@.skip(from + 1));
        from += 1;
    }
    let ghost front = chars@.skip(from as int);
    assert(strip_front(chars@) == front);
    let mut to: usize = count;
    assert(front.take(to - from) =~= front);
    while to > from && (chars[to - 1] == '-' || chars[to - 1] == '.')
        invariant
            count == chars@.len(),
            from <= to <= count,
            front == chars@.skip(from as int),
            strip_back(front) == strip_back(front.take(to - from)),
        decreases to,
    {
        assert(front.take(to - from).last() == chars@[to - 1]);
        assert(front.take(to - from).drop_last() =~= front.take(to - 1 - from));
        to -= 1;
    }
    proof {
        let kept = front.take(to - from);
        assert(kept.len() > 0 ==> kept.last() == chars@[to - 1]);
        assert(strip_back(kept) == kept);
        assert(chars@.subrange(from as int, to as int) =~= kept);
    }
    vstd::slice::slice_subrange(chars, from, to)
}

/// A text as part of a file name.
pub fn safe_name(value: &str) -> (r: String)
    ensures
        r@ == safe(value@),
{
    let output = squeeze(value);
    let name = strip(output.as_slice());
    if name.len() == 0 {
        "unknown".to_owned()
    } else {
        to_text(name)
    }
}

/// The file of a session, a link or an event lies in a directory below the root.
pub open spec fn file_in(root: Seq<char>, directory: Seq<char>, stem: Seq<char>) -> Seq<char> {
    paths::joined(paths::joined(root, directory), stem + ".json"@)
}

/// The name of an event's file, without its extension. It begins with the time.
pub open spec fn event_stem(nanos: nat, event_id: Seq<char>) -> Seq<char> {
    number::zero_padded(nanos, 20) + "-"@ + event_id
}

fn file_path(root: &str, directory: &str, stem: &str) -> (r: String)
    ensures
        r@ == file_in(root@, directory@, stem@),
{
    let mut name = stem.to_owned();
    name.append(".json");
    join(join(root, directory).as_str(), name.as_str())
}

// ---------------------------------------------------------------------------
// Writing
// ---------------------------------------------------------------------------

pub open spec fn unless_empty(new: Seq<char>, previous: Seq<char>) -> Seq<char> {
    if new.len() == 0 {
        previous
    } else {
        new
    }
}

/// The record of a session after an event. What the event leaves open stays as it was: only
/// a prompt carries a task, and only a completed turn a message.
pub open spec fn merged(previous: Option<RunView>, event: EventView) -> RunView {
    let run = crate::model::run_of(event);
    match previous {
        None => run,
        Some(previous) => RunView {
            task: unless_empty(run.task, previous.task),
            tmux: unless_empty(run.tmux, previous.tmux),
            message: unless_empty(run.message, previous.message),
            ..run
        },
    }
}

pub open spec fn seen_as(previous: Option<RunRecord>) -> Option<RunView> {
    match previous {
        Some(run) => Some(run.deep_view()),
        None => None,
    }
}

/// A session's record, and where it goes.
pub struct RunWrite {
    pub path: String,
    pub run: RunRecord,
}

/// What an event makes of the state: the session's record, and a file for the event itself.
pub struct EventWrite {
    pub run: RunWrite,
    pub event_path: String,
}

/// Where the record of an event's session lies.
pub fn run_path(event: &Event, root: &str) -> (r: String)
    ensures
        r@ == file_in(root@, "runs"@, safe(event.run_id@)),
{
    file_path(root, "runs", safe_name(event.run_id.as_str()).as_str())
}

/// The record of a session after an event, where `previous` is the one in its place so far.
fn update_run(event: &Event, previous: Option<RunRecord>, root: &str) -> (r: RunWrite)
    ensures
        r.path@ == file_in(root@, "runs"@, safe(event.run_id@)),
        r.run.deep_view() == merged(seen_as(previous), event.deep_view()),
{
    let mut run = RunRecord::from(event.duplicate());
    if let Some(previous) = previous {
        if run.task.as_str().is_empty() {
            run.task = previous.task;
        }
        if run.tmux.as_str().is_empty() {
            run.tmux = previous.tmux;
        }
        if run.message.as_str().is_empty() {
            run.message = previous.message;
        }
    }
    RunWrite { path: run_path(event, root), run }
}

/// What to write for an event that happened `nanos` nanoseconds after the start of 1970.
pub fn write_event_at(
    event: &Event,
    previous: Option<RunRecord>,
    nanos: u128,
    root: &str,
) -> (r: EventWrite)
    ensures
        r.run.path@ == file_in(root@, "runs"@, safe(event.run_id@)),
        r.run.run.deep_view() == merged(seen_as(previous), event.deep_view()),
        r.event_path@ == file_in(root@, "events"@, event_stem(nanos as nat, event.event_id@)),
{
    let run = update_run(event, previous, root);
    let mut stem = zero_padded_text(nanos, 20);
    stem.append("-");
    stem.append(event.event_id.as_str());
    EventWrite { run, event_path: file_path(root, "events", stem.as_str()) }
}

pub fn write_event(
    event: &Event,
    previous: Option<RunRecord>,
    nanos: u128,
    environment: &Environment,
) -> (r: EventWrite)
    ensures
        r.run.path@ == file_in(state_dir_of(*environment), "runs"@, safe(event.run_id@)),
        r.run.run.deep_view() == merged(seen_as(previous), event.deep_view()),
        r.event_path@ == file_in(
            state_dir_of(*environment),
            "events"@,
            event_stem(nanos as nat, event.event_id@),
        ),
{
    write_event_at(event, previous, nanos, state_dir(environment).as_str())
}

/// Refreshes the session's record without touching the event log. Activity heartbeats fire
/// on every tool call: appended as events they would drown the feed.
pub fn write_activity_at(event: &Event, previous: Option<RunRecord>, root: &str) -> (r: RunWrite)
    ensures
        r.path@ == file_in(root@, "runs"@, safe(event.run_id@)),
        r.run.deep_view() == merged(seen_as(previous), event.deep_view()),
{
    update_run(event, previous, root)
}

pub fn write_activity(
    event: &Event,
    previous: Option<RunRecord>,
    environment: &Environment,
) -> (r: RunWrite)
    ensures
        r.path@ == file_in(state_dir_of(*environment), "runs"@, safe(event.run_id@)),
        r.run.deep_view() == merged(seen_as(previous), event.deep_view()),
{
    write_activity_at(event, previous, state_dir(environment).as_str())
}

/// What a hook leaves behind: the session's record, and a file for the event unless it is a
/// heartbeat.
pub struct Recorded {
    pub run: RunWrite,
    pub event_path: Option<String>,
}

/// What to write for what a hook reports. A heartbeat refreshes the session only.
pub fn record_at(
    event: &Event,
    previous: Option<RunRecord>,
    nanos: u128,
    root: &str,
) -> (r: Recorded)
    ensures
        r.run.path@ == file_in(root@, "runs"@, safe(event.run_id@)),
        r.run.run.deep_view() == merged(seen_as(previous), event.deep_view()),
        text::optional(r.event_path) == if hooks::activity(event.event@) {
            None
        } else {
            Some(file_in(root@, "events"@, event_stem(nanos as nat, event.event_id@)))
        },
{
    if is_activity(event.event.as_str()) {
        Recorded { run: write_activity_at(event, previous, root), event_path: None }
    } else {
        let write = write_event_at(event, previous, nanos, root);
        Recorded { run: write.run, event_path: Some(write.event_path) }
    }
}

fn link_path(root: &str, id: &str) -> (r: String)
    ensures
        r@ == file_in(root@, "links"@, safe(id@)),
{
    file_path(root, "links", safe_name(id).as_str())
}

/// Where a link is written to.
pub fn write_link_at(link: &Link, root: &str) -> (path: String)
    ensures
        path@ == file_in(root@, "links"@, safe(link.id@)),
{
    link_path(root, link.id.as_str())
}

pub fn write_link(link: &Link, environment: &Environment) -> (path: String)
    ensures
        path@ == file_in(state_dir_of(*environment), "links"@, safe(link.id@)),
{
    write_link_at(link, state_dir(environment).as_str())
}

/// The file to remove so that a link is gone. It need not be there.
pub fn clear_link_at(id: &str, root: &str) -> (path: String)
    ensures
        path@ == file_in(root@, "links"@, safe(id@)),
{
    link_path(root, id)
}

pub fn clear_link(id: &str, environment: &Environment) -> (path: String)
    ensures
        path@ == file_in(state_dir_of(*environment), "links"@, safe(id@)),
{
    clear_link_at(id, state_dir(environment).as_str())
}

/// The name of the file that a new content is written to before it takes its place.
pub open spec fn temporary_of(file: Option<Seq<char>>, process: nat, unique: Seq<char>) -> Seq<
    char,
> {
    "."@ + (match file {
        Some(file) => file,
        None => "state.json"@,
    }) + "."@ + number::decimal(process) + "."@ + unique
}

pub fn temporary_name(file: Option<&str>, process: u32, unique: &str) -> (r: String)
    ensures
        r@ == temporary_of(
            text::given(file),
            process as nat,
            unique@,
        ),
{
    let mut out = ".".to_owned();
    match file {
        Some(file) => out.append(file),
        None => out.append("state.json"),
    }
    out.append(".");
    out.append(decimal_text(process as u128).as_str());
    out.append(".");
    out.append(unique);
    out
}

// ---------------------------------------------------------------------------
// Reading
// ---------------------------------------------------------------------------

/// The directories that the state consists of.
pub struct Directories {
    pub runs: String,
    pub links: String,
    pub events: String,
}

pub fn directories(root: &str) -> (r: Directories)
    ensures
        r.runs@ == paths::joined(root@, "runs"@),
        r.links@ == paths::joined(root@, "links"@),
        r.events@ == paths::joined(root@, "events"@),
{
    Directories {
        runs: join(root, "runs"),
        links: join(root, "links"),
        events: join(root, "events"),
    }
}

/// A file whose extension is `json`. The dot that a hidden file begins with starts no
/// extension.
pub open spec fn is_json_file(name: Seq<char>) -> bool {
    name.len() > 5 && name.skip(name.len() - 5) == ".json"@
}

/// The JSON files among those of a directory, in the order of their names.
pub open spec fn json_files(names: Seq<Seq<char>>) -> Seq<Seq<char>> {
    table::sorted_keys(names.to_set().filter(|name: Seq<char>| is_json_file(name)))
}

fn has_json_extension(name: &str) -> (r: bool)
    ensures
        r == is_json_file(name@),
{
    let chars = to_chars(name);
    let count: usize = chars.len();
    if count <= 5 {
        return false;
    }
    let end = to_text(vstd::slice::slice_subrange(chars.as_slice(), count - 5, count));
    assert(end@ =~= name@.skip(name@.len() - 5));
    same(end.as_str(), ".json")
}

/// The files of a directory to read, in the order of their names.
pub fn json_names(names: &Vec<String>) -> (r: Vec<String>)
    ensures
        split::texts(r@) == json_files(split::texts(names@)),
{
    let ghost all = split::texts(names@);
    let ghost wanted = |name: Seq<char>| is_json_file(name);
    let mut kept: Vec<String> = Vec::new();
    let mut i: usize = 0;
    proof {
        assert(all.take(0).to_set() =~= Set::empty());
        assert(split::texts(kept@).to_set() =~= all.take(0).to_set().filter(wanted));
    }
    while i < names.len()
        invariant
            i <= names@.len(),
            all == split::texts(names@),
            forall|name: Seq<char>| #[trigger] wanted(name) == is_json_file(name),
            split::texts(kept@).to_set() == all.take(i as int).to_set().filter(wanted),
        decreases names@.len() - i,
    {
        let ghost earlier = split::texts(kept@);
        let ghost name = all[i as int];
        proof {
            assert(all.take(i + 1) =~= all.take(i as int).push(name));
            table::lemma_to_set_push(all.take(i as int), name);
            assert(wanted(name) == is_json_file(name));
        }
        if has_json_extension(names[i].as_str()) {
            kept.push(names[i].clone());
            proof {
                assert(split::texts(kept@) =~= earlier.push(name));
                table::lemma_to_set_push(earlier, name);
                assert(all.take(i + 1).to_set().filter(wanted) =~= earlier.to_set().insert(name));
            }
        } else {
            assert(all.take(i + 1).to_set().filter(wanted) =~= earlier.to_set());
        }
        i += 1;
    }
    assert(all.take(i as int) =~= all);
    assert(all.to_set().filter(wanted) =~= all.to_set().filter(
        |name: Seq<char>| is_json_file(name),
    ));
    sorted_set(&kept)
}

/// The event files to read: those with the last names, which are the latest events.
pub fn recent_names(names: &Vec<String>, limit: usize) -> (r: Vec<String>)
    ensures
        split::texts(r@) == split::last_of(json_files(split::texts(names@)), limit as nat),
{
    let mut all = json_names(names);
    let count: usize = all.len();
    if count > limit {
        let ghost before = all@;
        let last = all.split_off(count - limit);
        assert(split::texts(last@) =~= split::texts(before).skip(count - limit));
        last
    } else {
        all
    }
}

/// The records of the files that could be read.
pub open spec fn readable<T: DeepView>(files: Seq<Option<T>>) -> Seq<T::V>
    decreases files.len(),
{
    if files.len() == 0 {
        Seq::empty()
    } else {
        let before = readable(files.drop_last());
        match files.last() {
            Some(record) => before.push(record.deep_view()),
            None => before,
        }
    }
}

/// The list with its last element first.
fn turned<T: DeepView>(list: Vec<T>) -> (r: Vec<T>)
    ensures
        r.deep_view() == list.deep_view().reverse(),
{
    let ghost all = list.deep_view();
    let mut rest = list;
    let mut out: Vec<T> = Vec::new();
    assert(out.deep_view() + rest.deep_view().reverse() =~= all.reverse());
    while rest.len() > 0
        invariant
            out.deep_view() + rest.deep_view().reverse() == all.reverse(),
        decreases rest@.len(),
    {
        let ghost before = rest.deep_view();
        let ghost earlier = out.deep_view();
        if let Some(last) = rest.pop() {
            out.push(last);
            proof {
                let next = earlier.push(before.last());
                assert(out.deep_view() =~= next);
                assert(rest.deep_view() =~= before.drop_last());
                assert(next + before.drop_last().reverse() =~= earlier + before.reverse());
            }
        }
    }
    assert(out.deep_view() =~= all.reverse());
    out
}

fn keep_readable<T: DeepView>(files: Vec<Option<T>>) -> (r: Vec<T>)
    ensures
        r.deep_view() == readable(files@),
{
    let ghost all = files@;
    let mut rest = files;
    let mut found: Vec<T> = Vec::new();
    assert(readable(rest@) + found.deep_view().reverse() =~= readable(all));
    while rest.len() > 0
        invariant
            readable(rest@) + found.deep_view().reverse() == readable(all),
        decreases rest@.len(),
    {
        let ghost before = rest@;
        let ghost earlier = found.deep_view();
        if let Some(last) = rest.pop() {
            assert(rest@ =~= before.drop_last());
            if let Some(record) = last {
                found.push(record);
                proof {
                    let next = earlier.push(record.deep_view());
                    assert(found.deep_view() =~= next);
                    assert(readable(rest@) + next.reverse() =~= readable(before)
                        + earlier.reverse());
                }
            }
        }
    }
    assert(found.deep_view().reverse() =~= readable(all));
    turned(found)
}

/// The link can be opened: it has a URL, and it has been refreshed within its lifetime.
pub open spec fn is_live(link: LinkView, now: Timestamp) -> bool {
    &&& link.url.len() > 0
    &&& time::moment(link.updated_at) matches Some(at) && time::seconds_between(now, at)
        <= LINK_TTL_SECONDS
}

pub open spec fn live(links: Seq<LinkView>, now: Timestamp) -> Seq<LinkView> {
    links.filter(|link: LinkView| is_live(link, now))
}

fn link_is_live(link: &Link, now: Timestamp) -> (r: bool)
    requires
        now.valid(),
    ensures
        r == is_live(link.deep_view(), now),
{
    if link.url.as_str().is_empty() {
        return false;
    }
    match parse_time(link.updated_at.as_str()) {
        Some(at) => seconds_since(now, at) <= LINK_TTL_SECONDS,
        None => false,
    }
}

fn keep_live(links: Vec<Link>, now: Timestamp) -> (r: Vec<Link>)
    requires
        now.valid(),
    ensures
        r.deep_view() == live(links.deep_view(), now),
{
    let ghost all = links.deep_view();
    let mut rest = links;
    let mut found: Vec<Link> = Vec::new();
    assert(live(all, now) + found.deep_view().reverse() =~= live(all, now));
    while rest.len() > 0
        invariant
            now.valid(),
            live(rest.deep_view(), now) + found.deep_view().reverse() == live(all, now),
        decreases rest@.len(),
    {
        reveal(Seq::filter);
        let ghost before = rest.deep_view();
        let ghost earlier = found.deep_view();
        if let Some(last) = rest.pop() {
            assert(rest.deep_view() =~= before.drop_last());
            if link_is_live(&last, now) {
                found.push(last);
                proof {
                    let next = earlier.push(last.deep_view());
                    assert(found.deep_view() =~= next);
                    assert(live(rest.deep_view(), now) + next.reverse() =~= live(before, now)
                        + earlier.reverse());
                }
            }
        }
    }
    proof {
        reveal(Seq::filter);
        assert(found.deep_view().reverse() =~= live(all, now));
    }
    turned(found)
}

proof fn lemma_before_splits(a: Seq<char>, b: Seq<char>, c: Seq<char>)
    requires
        text::before(a, b),
    ensures
        text::before(a, c) || text::before(c, b),
{
    text::lemma_before_total(a, c);
    if text::before(c, a) {
        text::lemma_before_transitive(c, a, b);
    }
}

/// Sessions are listed with the latest one first.
impl Ranked for RunRecord {
    open spec fn ahead(a: RunView, b: RunView) -> bool {
        text::before(b.updated_at, a.updated_at)
    }

    proof fn ahead_splits(a: RunView, b: RunView, c: RunView) {
        lemma_before_splits(b.updated_at, a.updated_at, c.updated_at);
    }

    proof fn ahead_is_one_way(a: RunView, b: RunView) {
        text::lemma_before_total(a.updated_at, b.updated_at);
    }

    fn is_ahead(&self, other: &Self) -> (r: bool) {
        comes_before(other.updated_at.as_str(), self.updated_at.as_str())
    }
}

/// Links are listed by kind, then by title, then by identifier.
impl Ranked for Link {
    open spec fn ahead(a: LinkView, b: LinkView) -> bool {
        ||| text::before(a.kind, b.kind)
        ||| a.kind == b.kind && text::before(a.title, b.title)
        ||| a.kind == b.kind && a.title == b.title && text::before(a.id, b.id)
    }

    proof fn ahead_splits(a: LinkView, b: LinkView, c: LinkView) {
        text::lemma_before_total(a.kind, c.kind);
        text::lemma_before_total(c.kind, b.kind);
        text::lemma_before_total(a.title, c.title);
        text::lemma_before_total(c.title, b.title);
        text::lemma_before_total(a.id, c.id);
        text::lemma_before_total(c.id, b.id);
        if text::before(a.kind, b.kind) {
            lemma_before_splits(a.kind, b.kind, c.kind);
        }
        if text::before(a.title, b.title) {
            lemma_before_splits(a.title, b.title, c.title);
        }
        if text::before(a.id, b.id) {
            lemma_before_splits(a.id, b.id, c.id);
        }
    }

    proof fn ahead_is_one_way(a: LinkView, b: LinkView) {
        text::lemma_before_total(a.kind, b.kind);
        text::lemma_before_total(a.title, b.title);
        text::lemma_before_total(a.id, b.id);
        text::lemma_before_irreflexive(a.kind);
        text::lemma_before_irreflexive(a.title);
    }

    fn is_ahead(&self, other: &Self) -> (r: bool) {
        comes_before(self.kind.as_str(), other.kind.as_str()) || (same(
            self.kind.as_str(),
            other.kind.as_str(),
        ) && (comes_before(self.title.as_str(), other.title.as_str()) || (same(
            self.title.as_str(),
            other.title.as_str(),
        ) && comes_before(self.id.as_str(), other.id.as_str()))))
    }
}

/// The snapshot shows, at a moment, what the records say: the sessions with the latest one
/// first, the links that are live, and the events as they come.
pub open spec fn shows(
    snapshot: crate::model::SnapshotView,
    host: Seq<char>,
    now: Timestamp,
    runs: Seq<RunView>,
    links: Seq<LinkView>,
    events: Seq<EventView>,
) -> bool {
    &&& snapshot.schema_version == SCHEMA_VERSION
    &&& snapshot.host == host
    &&& snapshot.generated_at == time::rfc3339(now.seconds, now.nanos)
    &&& sort::is_sorted_from::<RunRecord>(runs, snapshot.runs)
    &&& sort::is_sorted_from::<Link>(live(links, now), snapshot.links)
    &&& snapshot.events == events
}

/// The snapshot of a machine at a moment. The files are those of the three directories, in
/// the order of their names and of the events only the recent ones; one that could not be
/// read is `None`.
pub fn snapshot_at_time(
    host: String,
    now: Timestamp,
    runs: Vec<Option<RunRecord>>,
    links: Vec<Option<Link>>,
    events: Vec<Option<Event>>,
) -> (r: Snapshot)
    requires
        now.valid(),
    ensures
        shows(
            r.deep_view(),
            host@,
            now,
            readable(runs@),
            readable(links@),
            readable(events@),
        ),
{
    let runs = sorted(keep_readable(runs));
    let links = sorted(keep_live(keep_readable(links), now));
    let events = keep_readable(events);
    Snapshot {
        schema_version: SCHEMA_VERSION,
        host,
        generated_at: format_time(now),
        runs,
        links,
        events,
    }
}

/// The snapshot of a machine as it is now.
pub fn snapshot_at(
    host: String,
    runs: Vec<Option<RunRecord>>,
    links: Vec<Option<Link>>,
    events: Vec<Option<Event>>,
) -> (r: Snapshot)
    ensures
        exists|at: Timestamp|
            #![trigger at.valid()]
            at.valid() && at.seconds >= 0 && shows(
                r.deep_view(),
                host@,
                at,
                readable(runs@),
                readable(links@),
                readable(events@),
            ),
{
    let at = now();
    snapshot_at_time(host, at, runs, links, events)
}

// ---------------------------------------------------------------------------
// Pruning
// ---------------------------------------------------------------------------

pub const SECONDS_PER_DAY: u64 = 86_400;

/// The time that files must not be older than: so many days before now, or the start of
/// 1970 where that cannot be represented.
pub open spec fn cutoff_of(now: Timestamp, days: nat) -> Timestamp {
    let seconds = now.seconds - days * SECONDS_PER_DAY;
    if seconds >= i64::MIN {
        Timestamp { seconds: seconds as i64, nanos: now.nanos }
    } else {
        Timestamp { seconds: 0, nanos: 0 }
    }
}

/// `a` is earlier than `b`.
pub open spec fn is_earlier(a: Timestamp, b: Timestamp) -> bool {
    a.seconds < b.seconds || (a.seconds == b.seconds && a.nanos < b.nanos)
}

/// The names of the files that are too old, where it is known when they were modified.
pub open spec fn outdated(files: Seq<(String, Option<Timestamp>)>, cutoff: Timestamp) -> Seq<
    Seq<char>,
>
    decreases files.len(),
{
    if files.len() == 0 {
        Seq::empty()
    } else {
        let before = outdated(files.drop_last(), cutoff);
        match files.last().1 {
            Some(modified) if is_earlier(modified, cutoff) => before.push(files.last().0@),
            _ => before,
        }
    }
}

fn cutoff(now: Timestamp, retention_days: u64) -> (r: Timestamp)
    requires
        retention_days * SECONDS_PER_DAY <= u64::MAX,
    ensures
        r == cutoff_of(now, retention_days as nat),
{
    let span: u64 = retention_days * SECONDS_PER_DAY;
    let seconds: i128 = now.seconds as i128 - span as i128;
    if seconds >= i64::MIN as i128 {
        Timestamp { seconds: seconds as i64, nanos: now.nanos }
    } else {
        Timestamp { seconds: 0, nanos: 0 }
    }
}

/// The files to remove because they were last modified too long ago.
pub fn prune(
    files: &Vec<(String, Option<Timestamp>)>,
    now: Timestamp,
    retention_days: u64,
) -> (r: Vec<String>)
    requires
        retention_days * SECONDS_PER_DAY <= u64::MAX,
    ensures
        split::texts(r@) == outdated(files@, cutoff_of(now, retention_days as nat)),
{
    let cutoff = cutoff(now, retention_days);
    let ghost all = files@;
    let mut out: Vec<String> = Vec::new();
    let mut i: usize = 0;
    assert(all.take(0) =~= Seq::empty());
    assert(split::texts(out@) =~= Seq::empty());
    while i < files.len()
        invariant
            i <= files@.len(),
            all == files@,
            split::texts(out@) == outdated(all.take(i as int), cutoff),
        decreases files@.len() - i,
    {
        assert(all.take(i + 1).drop_last() =~= all.take(i as int));
        assert(all.take(i + 1).last() == files@[i as int]);
        if let Some(modified) = files[i].1 {
            if modified.seconds < cutoff.seconds || (modified.seconds == cutoff.seconds
                && modified.nanos < cutoff.nanos) {
                let ghost before = split::texts(out@);
                out.push(files[i].0.clone());
                assert(split::texts(out@) =~= before.push(files@[i as int].0@));
            }
        }
        i += 1;
    }
    assert(all.take(i as int) =~= all);
    out
}

/// The files to remove by the usual retention.
pub fn prune_by_default(files: &Vec<(String, Option<Timestamp>)>, now: Timestamp) -> (r: Vec<
    String,
>)
    ensures
        split::texts(r@) == outdated(files@, cutoff_of(now, DEFAULT_RETENTION_DAYS as nat)),
{
    prune(files, now, DEFAULT_RETENTION_DAYS)
}

// ---------------------------------------------------------------------------
// The machine's name
// ---------------------------------------------------------------------------

/// The part of a host name before its domain.
pub open spec fn short(name: Seq<char>) -> Seq<char> {
    name.take(split::find(name, '.') as int)
}

/// The short name of the machine: from the environment, else from what the `hostname`
/// command printed.
pub open spec fn short_host_of(variable: Option<Seq<char>>, printed: Option<Seq<char>>) -> Seq<
    char,
> {
    match variable {
        Some(name) if name.len() > 0 => short(name),
        _ => match printed {
            Some(out) if split::trim(out).len() > 0 => short(split::trim(out)),
            _ => "unknown"@,
        },
    }
}

fn shorten(name: &[char]) -> (r: String)
    ensures
        r@ == short(name@),
{
    let n: usize = index_of(name, '.');
    proof {
        split::lemma_find(name@, '.');
    }
    assert(name@.subrange(0, n as int) =~= name@.take(n as int));
    to_text(vstd::slice::slice_subrange(name, 0, n))
}

/// `printed` is what the `hostname` command printed, if it ran well.
pub fn short_host(variable: Option<&str>, printed: Option<&str>) -> (r: String)
    ensures
        r@ == short_host_of(
            text::given(variable),
            text::given(printed),
        ),
{
    if let Some(name) = variable {
        if !name.is_empty() {
            let chars = to_chars(name);
            return shorten(chars.as_slice());
        }
    }
    if let Some(out) = printed {
        let chars = to_chars(out);
        let name = trimmed(chars.as_slice());
        if name.len() > 0 {
            return shorten(name);
        }
    }
    "unknown".to_owned()
}

// ---------------------------------------------------------------------------
// What the names of files can hold
// ---------------------------------------------------------------------------

/// A text that can be part of a file name as it is.
pub open spec fn is_safe_name(name: Seq<char>) -> bool {
    &&& 0 < name.len() <= NAME_LIMIT
    &&& forall|i: int| 0 <= i < name.len() ==> is_safe(#[trigger] name[i])
    &&& !is_edge(name[0])
    &&& !is_edge(name.last())
}

proof fn lemma_squeezed_is_safe(s: Seq<char>)
    ensures
        forall|i: int| 0 <= i < squeezed(s).len() ==> is_safe(#[trigger] squeezed(s)[i]),
    decreases s.len(),
{
    if s.len() > 0 {
        let before = squeezed(s.drop_last());
        lemma_squeezed_is_safe(s.drop_last());
        assert forall|i: int| 0 <= i < squeezed(s).len() implies is_safe(
            #[trigger] squeezed(s)[i],
        ) by {
            if i < before.len() {
                assert(squeezed(s)[i] == before[i]);
            }
        }
    }
}

proof fn lemma_strip_front(s: Seq<char>)
    ensures
        strip_front(s).len() <= s.len(),
        strip_front(s).len() > 0 ==> !is_edge(strip_front(s)[0]),
        forall|c: char| #[trigger] strip_front(s).contains(c) ==> s.contains(c),
    decreases s.len(),
{
    if s.len() > 0 && is_edge(s[0]) {
        let rest = s.drop_first();
        lemma_strip_front(rest);
        assert forall|c: char| #[trigger] strip_front(s).contains(c) implies s.contains(c) by {
            let i = choose|i: int| 0 <= i < rest.len() && rest[i] == c;
            assert(s[i + 1] == c);
        }
    }
}

proof fn lemma_strip_back(s: Seq<char>)
    ensures
        strip_back(s).len() <= s.len(),
        strip_back(s).len() > 0 ==> !is_edge(strip_back(s).last()) && strip_back(s)[0] == s[0],
        forall|c: char| #[trigger] strip_back(s).contains(c) ==> s.contains(c),
    decreases s.len(),
{
    if s.len() > 0 && is_edge(s.last()) {
        let rest = s.drop_last();
        lemma_strip_back(rest);
        assert forall|c: char| #[trigger] strip_back(s).contains(c) implies s.contains(c) by {
            let i = choose|i: int| 0 <= i < rest.len() && rest[i] == c;
            assert(s[i] == c);
        }
    }
}

/// Whatever it is made from, a safe name holds only letters, digits, dots, hyphens and
/// underscores, is not empty, is not too long, and neither begins nor ends with a dot or a
/// hyphen. So it names a file in its directory, and no hidden one.
pub proof fn lemma_safe_name(value: Seq<char>)
    ensures
        is_safe_name(safe(value)),
{
    let cut = at_most(squeezed(value), NAME_LIMIT as nat);
    let front = strip_front(cut);
    let name = strip_back(front);
    lemma_squeezed_is_safe(value);
    lemma_strip_front(cut);
    lemma_strip_back(front);
    reveal_strlit("unknown");
    if name.len() > 0 {
        assert forall|i: int| 0 <= i < name.len() implies is_safe(#[trigger] name[i]) by {
            assert(name.contains(name[i]));
            assert(front.contains(name[i]));
            assert(cut.contains(name[i]));
            let j = choose|j: int| 0 <= j < cut.len() && cut[j] == name[i];
            assert(squeezed(value)[j] == name[i]);
        }
    }
}

proof fn lemma_safe_is_kept(name: Seq<char>)
    requires
        forall|i: int| 0 <= i < name.len() ==> is_safe(#[trigger] name[i]),
    ensures
        squeezed(name) == name,
    decreases name.len(),
{
    if name.len() > 0 {
        let fewer = name.drop_last();
        assert forall|i: int| 0 <= i < fewer.len() implies is_safe(#[trigger] fewer[i]) by {
            assert(fewer[i] == name[i]);
        }
        lemma_safe_is_kept(fewer);
        assert(is_safe(name[name.len() - 1]));
        assert(fewer.push(name.last()) =~= name);
    } else {
        assert(squeezed(name) =~= name);
    }
}

/// A safe name is kept as it is.
pub proof fn lemma_safe_name_is_kept(name: Seq<char>)
    requires
        is_safe_name(name),
    ensures
        safe(name) == name,
{
    lemma_safe_is_kept(name);
}

// ---------------------------------------------------------------------------
// The state as a whole
// ---------------------------------------------------------------------------

/// The records of a machine, each under the name of its file.
pub struct StoreView {
    pub runs: Map<Seq<char>, RunView>,
    pub links: Map<Seq<char>, LinkView>,
    pub events: Map<Seq<char>, EventView>,
}

pub open spec fn file_of(id: Seq<char>) -> Seq<char> {
    safe(id) + ".json"@
}

pub open spec fn event_file(nanos: nat, event_id: Seq<char>) -> Seq<char> {
    event_stem(nanos, event_id) + ".json"@
}

impl StoreView {
    /// The record of a session.
    pub open spec fn run(self, run_id: Seq<char>) -> Option<RunView> {
        if self.runs.dom().contains(file_of(run_id)) {
            Some(self.runs[file_of(run_id)])
        } else {
            None
        }
    }

    /// The state once a heartbeat is written.
    pub open spec fn with_activity(self, event: EventView) -> StoreView {
        StoreView {
            runs: self.runs.insert(
                file_of(event.run_id),
                merged(self.run(event.run_id), event),
            ),
            ..self
        }
    }

    /// The state once an event is written.
    pub open spec fn with_event(self, event: EventView, nanos: nat) -> StoreView {
        StoreView {
            events: self.events.insert(event_file(nanos, event.event_id), event),
            ..self.with_activity(event)
        }
    }

    /// The state once a link is written.
    pub open spec fn with_link(self, link: LinkView) -> StoreView {
        StoreView { links: self.links.insert(file_of(link.id), link), ..self }
    }

    /// The state once a link is cleared.
    pub open spec fn without_link(self, id: Seq<char>) -> StoreView {
        StoreView { links: self.links.remove(file_of(id)), ..self }
    }
}

/// The records in the order of their files' names.
pub open spec fn in_name_order<V>(files: Map<Seq<char>, V>) -> Seq<V> {
    let names = table::sorted_keys(files.dom());
    Seq::new(names.len(), |i: int| files[names[i]])
}

/// A session is in the state of its last event. Its task, its tmux pane and its last message
/// survive events that carry none, and give way to those that do.
pub proof fn lemma_record_after_event(store: StoreView, event: EventView, nanos: nat)
    ensures
        store.with_event(event, nanos).run(event.run_id) matches Some(after) && {
            &&& after.state == event.state
            &&& after.updated_at == event.updated_at
            &&& event.task.len() > 0 ==> after.task == event.task
            &&& event.tmux.len() > 0 ==> after.tmux == event.tmux
            &&& event.message.len() > 0 ==> after.message == event.message
            &&& store.run(event.run_id) matches Some(before) ==> {
                &&& event.task.len() == 0 ==> after.task == before.task
                &&& event.tmux.len() == 0 ==> after.tmux == before.tmux
                &&& event.message.len() == 0 ==> after.message == before.message
            }
        },
{
}

/// A heartbeat leaves the same record of its session as any event, and stays out of the
/// event log.
pub proof fn lemma_heartbeat_stays_out_of_log(store: StoreView, event: EventView, nanos: nat)
    ensures
        store.with_activity(event).events == store.events,
        store.with_activity(event).runs == store.with_event(event, nanos).runs,
{
}

/// Sessions whose names are kept apart do not touch each other's records.
pub proof fn lemma_other_sessions_stay(store: StoreView, event: EventView, other: Seq<char>)
    requires
        safe(other) != safe(event.run_id),
    ensures
        store.with_activity(event).run(other) == store.run(other),
{
    let end = ".json"@;
    let a = safe(other) + end;
    let b = safe(event.run_id) + end;
    if a == b {
        assert(safe(other) =~= a.take(a.len() - end.len()));
        assert(safe(event.run_id) =~= b.take(b.len() - end.len()));
    }
}

/// The names of event files are in the order of the events' times.
pub proof fn lemma_events_are_in_time_order(
    earlier: nat,
    earlier_id: Seq<char>,
    later: nat,
    later_id: Seq<char>,
)
    requires
        earlier < later,
        later < 100_000_000_000_000_000_000,
    ensures
        text::before(event_file(earlier, earlier_id), event_file(later, later_id)),
{
    assert(number::power_of_ten(20) == 100_000_000_000_000_000_000) by {
        reveal_with_fuel(number::power_of_ten, 21);
    }
    let x = "-"@ + earlier_id + ".json"@;
    let y = "-"@ + later_id + ".json"@;
    number::lemma_padded_order(earlier, later, 20, x, y);
    assert(event_file(earlier, earlier_id) =~= number::zero_padded(earlier, 20) + x);
    assert(event_file(later, later_id) =~= number::zero_padded(later, 20) + y);
}

/// Every event file has been written before a time.
pub open spec fn written_before(names: Set<Seq<char>>, nanos: nat) -> bool {
    forall|name: Seq<char>| #[trigger]
        names.contains(name) ==> exists|earlier: nat, id: Seq<char>|
            earlier < nanos && name == #[trigger] event_file(earlier, id)
}

/// The event that is written last comes last in the log, and the others stay in their order.
pub proof fn lemma_latest_event_is_last(store: StoreView, event: EventView, nanos: nat)
    requires
        store.events.dom().finite(),
        written_before(store.events.dom(), nanos),
        nanos < 100_000_000_000_000_000_000,
    ensures
        in_name_order(store.with_event(event, nanos).events) == in_name_order(store.events).push(
            event,
        ),
{
    let name = event_file(nanos, event.event_id);
    let names = table::sorted_keys(store.events.dom());
    let after = store.with_event(event, nanos).events;
    table::lemma_sorted_keys_exist(store.events.dom());
    let longer = names.push(name);
    assert forall|i: int| 0 <= i < names.len() implies text::before(#[trigger] names[i], name) by {
        assert(names.to_set().contains(names[i]));
        let (earlier, id) = choose|earlier: nat, id: Seq<char>|
            earlier < nanos && names[i] == #[trigger] event_file(earlier, id);
        lemma_events_are_in_time_order(earlier, id, nanos, event.event_id);
    }
    assert(table::ascending(longer)) by {
        assert forall|i: int, j: int| 0 <= i < j < longer.len() implies text::before(
            #[trigger] longer[i],
            #[trigger] longer[j],
        ) by {
            if j < names.len() {
                assert(text::before(names[i], names[j]));
            }
        }
    }
    table::lemma_to_set_push(names, name);
    assert(after.dom() =~= longer.to_set());
    table::lemma_sorted_keys(longer);
    assert forall|i: int| 0 <= i < names.len() implies after[#[trigger] names[i]]
        == store.events[names[i]] by {
        text::lemma_before_irreflexive(name);
    }
    assert(in_name_order(after) =~= in_name_order(store.events).push(event));
}

/// Whatever the limit, unless it is nothing at all, the event that is written last is shown.
pub proof fn lemma_latest_event_is_shown(
    store: StoreView,
    event: EventView,
    nanos: nat,
    limit: nat,
)
    requires
        store.events.dom().finite(),
        written_before(store.events.dom(), nanos),
        nanos < 100_000_000_000_000_000_000,
        limit > 0,
    ensures
        split::last_of(in_name_order(store.with_event(event, nanos).events), limit).last() == event,
        split::last_of(in_name_order(store.with_event(event, nanos).events), limit).len() <= limit,
{
    lemma_latest_event_is_last(store, event, nanos);
}

proof fn lemma_json_name(stem: Seq<char>)
    requires
        stem.len() > 0,
    ensures
        is_json_file(stem + ".json"@),
{
    reveal_strlit(".json");
    let name = stem + ".json"@;
    assert(name.skip(name.len() - 5) =~= ".json"@);
}

/// The files that are written are among those that are read again.
pub proof fn lemma_written_files_are_read(id: Seq<char>, nanos: nat)
    ensures
        is_json_file(file_of(id)),
        is_json_file(event_file(nanos, id)),
{
    lemma_safe_name(id);
    lemma_json_name(safe(id));
    number::lemma_decimal(nanos);
    lemma_json_name(event_stem(nanos, id));
}

/// A link that is set again in its place replaces the one before.
pub proof fn lemma_link_replaces_itself(store: StoreView, first: LinkView, second: LinkView)
    requires
        first.id == second.id,
    ensures
        store.with_link(first).with_link(second).links == store.with_link(second).links,
{
    assert(store.with_link(first).with_link(second).links =~= store.with_link(second).links);
}

/// A cleared link is gone; to clear it once more, or where there is none, changes nothing.
pub proof fn lemma_cleared_link_is_gone(store: StoreView, id: Seq<char>)
    ensures
        !store.without_link(id).links.dom().contains(file_of(id)),
        store.without_link(id).without_link(id).links == store.without_link(id).links,
        !store.links.dom().contains(file_of(id)) ==> store.without_link(id).links == store.links,
{
    assert(store.without_link(id).without_link(id).links =~= store.without_link(id).links);
    assert(!store.links.dom().contains(file_of(id)) ==> store.without_link(id).links
        =~= store.links);
}

/// A link is live for as long as its lifetime after it was refreshed, and not a second
/// longer.
pub proof fn lemma_link_lifetime(link: LinkView, refreshed: Timestamp, now: Timestamp)
    requires
        link.url.len() > 0,
        time::moment(link.updated_at) == Some(refreshed),
        refreshed.nanos == 0,
        now.nanos < time::NANOS_PER_SECOND,
        now.seconds >= refreshed.seconds,
    ensures
        is_live(link, now) == (now.seconds - refreshed.seconds <= LINK_TTL_SECONDS),
{
    let d = now.seconds - refreshed.seconds;
    let nanos = time::nanos_between(now, refreshed);
    assert(nanos == d * time::NANOS_PER_SECOND + now.nanos);
    assert(nanos / (time::NANOS_PER_SECOND as int) == d) by (nonlinear_arith)
        requires
            nanos == d * 1_000_000_000 + now.nanos,
            now.nanos < 1_000_000_000,
            time::NANOS_PER_SECOND == 1_000_000_000,
    ;
}

/// A link without a time that can be read is not live.
pub proof fn lemma_undated_link_is_not_live(link: LinkView, now: Timestamp)
    requires
        time::moment(link.updated_at) is None,
    ensures
        !is_live(link, now),
{
}

/// Only a file that was modified before the time of the cut is removed.
pub proof fn lemma_recent_files_stay(
    files: Seq<(String, Option<Timestamp>)>,
    cutoff: Timestamp,
    name: Seq<char>,
)
    requires
        outdated(files, cutoff).contains(name),
    ensures
        exists|i: int|
            0 <= i < files.len() && (#[trigger] files[i]).0@ == name && files[i].1 is Some
                && is_earlier(files[i].1->Some_0, cutoff),
    decreases files.len(),
{
    if files.len() > 0 {
        let fewer = files.drop_last();
        let before = outdated(fewer, cutoff);
        let k = choose|k: int|
            0 <= k < outdated(files, cutoff).len() && outdated(files, cutoff)[k] == name;
        if k < before.len() {
            assert(before[k] == name);
            lemma_recent_files_stay(fewer, cutoff, name);
            let i = choose|i: int|
                0 <= i < fewer.len() && (#[trigger] fewer[i]).0@ == name && fewer[i].1 is Some
                    && is_earlier(fewer[i].1->Some_0, cutoff);
            assert(files[i] == fewer[i]);
        } else {
            assert(files[files.len() - 1].0@ == name);
        }
    }
}

// ---------------------------------------------------------------------------
// What is written and what is shown
// ---------------------------------------------------------------------------

/// The record of a session says what its last event says. Only a task, a pane and a message
/// that the event leaves open stay as they were.
pub proof fn lemma_record_says_what_the_event_says(previous: Option<RunView>, event: EventView)
    ensures
        ({
            let run = merged(previous, event);
            &&& run.schema_version == event.schema_version
            &&& run.provider == event.provider
            &&& run.session_id == event.session_id
            &&& run.run_id == event.run_id
            &&& run.host == event.host
            &&& run.cwd == event.cwd
            &&& run.project == event.project
            &&& run.state == event.state
            &&& run.updated_at == event.updated_at
            &&& previous is None || event.task.len() > 0 ==> run.task == event.task
            &&& previous is None || event.tmux.len() > 0 ==> run.tmux == event.tmux
            &&& previous is None || event.message.len() > 0 ==> run.message == event.message
            &&& previous matches Some(before) ==> {
                &&& event.task.len() == 0 ==> run.task == before.task
                &&& event.tmux.len() == 0 ==> run.tmux == before.tmux
                &&& event.message.len() == 0 ==> run.message == before.message
            }
        }),
{
}

/// The records are those of all files that could be read, in the order of the files.
pub proof fn lemma_readable_in_order<T: DeepView>(a: Seq<Option<T>>, b: Seq<Option<T>>)
    ensures
        readable(a + b) == readable(a) + readable(b),
    decreases b.len(),
{
    if b.len() == 0 {
        assert(a + b =~= a);
        assert(readable(a) + readable(b) =~= readable(a));
    } else {
        lemma_readable_in_order(a, b.drop_last());
        assert((a + b).drop_last() =~= a + b.drop_last());
        assert((a + b).last() == b.last());
        assert(readable(a + b) =~= readable(a) + readable(b));
    }
}

/// A file that could be read gives its record, and one that could not gives none.
pub proof fn lemma_readable_file<T: DeepView>(record: T)
    ensures
        readable(seq![Some(record)]) == seq![record.deep_view()],
        readable(seq![None::<T>]) == Seq::<T::V>::empty(),
{
    let one = seq![Some(record)];
    let none = seq![None::<T>];
    assert(one.drop_last() =~= Seq::empty());
    assert(none.drop_last() =~= Seq::empty());
    assert(readable(one.drop_last()) =~= Seq::empty());
    assert(readable(one) =~= seq![record.deep_view()]);
    assert(readable(none) =~= Seq::empty());
}

/// A snapshot shows every session, the one that was heard of last first, and every event as it
/// comes, and nothing else.
pub proof fn lemma_snapshot_shows_all(
    snapshot: crate::model::SnapshotView,
    host: Seq<char>,
    now: Timestamp,
    runs: Seq<RunView>,
    links: Seq<LinkView>,
    events: Seq<EventView>,
    run: RunView,
)
    requires
        shows(snapshot, host, now, runs, links, events),
    ensures
        snapshot.schema_version == 1,
        snapshot.host == host,
        snapshot.generated_at == time::rfc3339(now.seconds, now.nanos),
        snapshot.events == events,
        snapshot.runs.len() == runs.len(),
        snapshot.runs.contains(run) == runs.contains(run),
        forall|i: int, j: int|
            0 <= i < j < snapshot.runs.len() ==> !text::before(
                (#[trigger] snapshot.runs[i]).updated_at,
                (#[trigger] snapshot.runs[j]).updated_at,
            ),
{
    sort::lemma_sorted_holds_the_same::<RunRecord>(runs, snapshot.runs, run);
    assert forall|i: int, j: int| 0 <= i < j < snapshot.runs.len() implies !text::before(
        (#[trigger] snapshot.runs[i]).updated_at,
        (#[trigger] snapshot.runs[j]).updated_at,
    ) by {
        assert(!<RunRecord as Ranked>::ahead(snapshot.runs[j], snapshot.runs[i]));
    }
}

proof fn lemma_live(links: Seq<LinkView>, now: Timestamp, link: LinkView)
    ensures
        live(links, now).contains(link) == (links.contains(link) && is_live(link, now)),
    decreases links.len(),
{
    reveal(Seq::filter);
    let keep = |link: LinkView| is_live(link, now);
    if links.len() > 0 {
        let fewer = links.drop_last();
        let last = links.last();
        let kept = live(fewer, now);
        lemma_live(fewer, now, link);
        table::lemma_to_set_push(fewer, last);
        assert(fewer.push(last) =~= links);
        assert(links.to_set().contains(link) == (fewer.to_set().contains(link) || link == last));
        if is_live(last, now) {
            assert(live(links, now) == kept.push(last));
            table::lemma_to_set_push(kept, last);
            assert(kept.push(last).to_set().contains(link) == (kept.to_set().contains(link) || link
                == last));
        }
    }
}

/// A snapshot shows exactly the links that have a URL and were refreshed no more than three
/// minutes ago, by kind, then by title, then by identifier.
pub proof fn lemma_snapshot_shows_live_links(
    snapshot: crate::model::SnapshotView,
    host: Seq<char>,
    now: Timestamp,
    runs: Seq<RunView>,
    links: Seq<LinkView>,
    events: Seq<EventView>,
    link: LinkView,
)
    requires
        shows(snapshot, host, now, runs, links, events),
    ensures
        snapshot.links.contains(link) == (links.contains(link) && link.url.len() > 0
            && time::moment(link.updated_at) is Some && time::seconds_between(
            now,
            time::moment(link.updated_at)->Some_0,
        ) <= 3 * 60),
        forall|i: int, j: int|
            0 <= i < j < snapshot.links.len() ==> {
                let a = #[trigger] snapshot.links[i];
                let b = #[trigger] snapshot.links[j];
                ||| text::before(a.kind, b.kind)
                ||| a.kind == b.kind && text::before(a.title, b.title)
                ||| a.kind == b.kind && a.title == b.title && (a.id == b.id || text::before(
                    a.id,
                    b.id,
                ))
            },
{
    let kept = live(links, now);
    lemma_live(links, now, link);
    sort::lemma_sorted_holds_the_same::<Link>(kept, snapshot.links, link);
    assert forall|i: int, j: int| 0 <= i < j < snapshot.links.len() implies {
        let a = #[trigger] snapshot.links[i];
        let b = #[trigger] snapshot.links[j];
        ||| text::before(a.kind, b.kind)
        ||| a.kind == b.kind && text::before(a.title, b.title)
        ||| a.kind == b.kind && a.title == b.title && (a.id == b.id || text::before(a.id, b.id))
    } by {
        let a = snapshot.links[i];
        let b = snapshot.links[j];
        assert(!<Link as Ranked>::ahead(b, a));
        text::lemma_before_total(a.kind, b.kind);
        text::lemma_before_total(a.title, b.title);
        text::lemma_before_total(a.id, b.id);
    }
}

/// A file is removed if and only if it is known to have been modified more than so many days
/// ago.
pub proof fn lemma_old_files_go(
    files: Seq<(String, Option<Timestamp>)>,
    now: Timestamp,
    days: nat,
    name: Seq<char>,
)
    requires
        now.seconds - days * 86_400 >= i64::MIN,
    ensures
        outdated(files, cutoff_of(now, days)).contains(name) <==> exists|i: int|
            0 <= i < files.len() && (#[trigger] files[i]).0@ == name && files[i].1 is Some && {
                let modified = files[i].1->Some_0;
                modified.seconds + days * 86_400 < now.seconds || (modified.seconds + days * 86_400
                    == now.seconds && modified.nanos < now.nanos)
            },
{
    let cut = cutoff_of(now, days);
    assert(cut.seconds == now.seconds - days * 86_400 && cut.nanos == now.nanos);
    if outdated(files, cut).contains(name) {
        lemma_recent_files_stay(files, cut, name);
        let i = choose|i: int|
            0 <= i < files.len() && (#[trigger] files[i]).0@ == name && files[i].1 is Some
                && is_earlier(files[i].1->Some_0, cut);
        assert(files[i].0@ == name);
    }
    if exists|i: int|
        0 <= i < files.len() && (#[trigger] files[i]).0@ == name && files[i].1 is Some && {
            let modified = files[i].1->Some_0;
            modified.seconds + days * 86_400 < now.seconds || (modified.seconds + days * 86_400
                == now.seconds && modified.nanos < now.nanos)
        } {
        let i = choose|i: int|
            0 <= i < files.len() && (#[trigger] files[i]).0@ == name && files[i].1 is Some && {
                let modified = files[i].1->Some_0;
                modified.seconds + days * 86_400 < now.seconds || (modified.seconds + days * 86_400
                    == now.seconds && modified.nanos < now.nanos)
            };
        lemma_outdated_found(files, cut, i);
    }
}

proof fn lemma_outdated_found(files: Seq<(String, Option<Timestamp>)>, cut: Timestamp, i: int)
    requires
        0 <= i < files.len(),
        files[i].1 is Some,
        is_earlier(files[i].1->Some_0, cut),
    ensures
        outdated(files, cut).contains(files[i].0@),
    decreases files.len(),
{
    let fewer = files.drop_last();
    let before = outdated(fewer, cut);
    if i < fewer.len() {
        lemma_outdated_found(fewer, cut, i);
        let k = choose|k: int| 0 <= k < before.len() && before[k] == fewer[i].0@;
        assert(outdated(files, cut)[k] == files[i].0@);
    } else {
        assert(outdated(files, cut)[before.len() as int] == files[i].0@);
    }
}

/// A file of the state lies in its directory below the root.
pub proof fn lemma_file_lies(root: Seq<char>, directory: Seq<char>, stem: Seq<char>)
    requires
        root.len() > 0,
        root.last() != '/',
        directory.len() > 0,
        directory[0] != '/',
        directory.last() != '/',
        stem.len() > 0,
        stem[0] != '/',
    ensures
        file_in(root, directory, stem) == root + seq!['/'] + directory + seq!['/'] + stem
            + ".json"@,
{
    let inner = root + seq!['/'] + directory;
    paths::lemma_paths_join(root, directory, root);
    assert(inner.last() == directory.last());
    let file = stem + ".json"@;
    assert(file[0] == stem[0]);
    paths::lemma_paths_join(inner, file, root);
    assert(inner + seq!['/'] + file =~= inner + seq!['/'] + stem + ".json"@);
}

/// The files that are read are exactly those whose names end in `.json`, in ascending order.
pub proof fn lemma_json_files(names: Seq<Seq<char>>, name: Seq<char>)
    ensures
        table::ascending(json_files(names)),
        json_files(names).contains(name) == (names.contains(name) && exists|stem: Seq<char>|
            stem.len() > 0 && name == #[trigger] (stem + ".json"@)),
{
    reveal_strlit(".json");
    assert(".json"@.len() == 5);
    vstd::seq_lib::seq_to_set_is_finite(names);
    let found = names.to_set().filter(|name: Seq<char>| is_json_file(name));
    table::lemma_sorted_keys_exist(found);
    assert(json_files(names).to_set().contains(name) == found.contains(name));
    if is_json_file(name) {
        let stem = name.take(name.len() - 5);
        assert(name =~= stem + ".json"@);
    }
    if exists|stem: Seq<char>| stem.len() > 0 && name == #[trigger] (stem + ".json"@) {
        let stem = choose|stem: Seq<char>| stem.len() > 0 && name == #[trigger] (stem + ".json"@);
        lemma_json_name(stem);
    }
}

/// The directories of the state and of the settings: the one that is asked for, else the one of
/// this program below what all programs share, else the usual one below the home directory.
pub proof fn lemma_directories(environment: Environment)
    ensures
        ({
            let home = match environment.home {
                Some(home) => home@,
                None => "."@,
            };
            &&& environment.state_dir matches Some(own) ==> state_dir_of(environment)
                == paths::home_expanded(own@, home)
            &&& environment.state_dir is None ==> (environment.state_home matches Some(shared)
                ==> state_dir_of(environment) == paths::joined(
                paths::home_expanded(shared@, home),
                "llm-watch"@,
            ))
            &&& environment.state_dir is None && environment.state_home is None ==> state_dir_of(
                environment,
            ) == paths::joined(home, ".local/state/llm-watch"@)
            &&& environment.config_dir matches Some(own) ==> config_dir_of(environment)
                == paths::home_expanded(own@, home)
            &&& environment.config_dir is None ==> (environment.config_home matches Some(shared)
                ==> config_dir_of(environment) == paths::joined(
                paths::home_expanded(shared@, home),
                "llm-watch"@,
            ))
            &&& environment.config_dir is None && environment.config_home is None
                ==> config_dir_of(environment) == paths::joined(home, ".config/llm-watch"@)
        }),
{
}

/// A machine is known by its name without the domain: the name from the environment, else the
/// one that the machine tells, else it is unknown.
pub proof fn lemma_short_host(name: Seq<char>, domain: Seq<char>, printed: Seq<char>)
    requires
        name.len() > 0,
        !name.contains('.'),
    ensures
        short_host_of(Some(name), None) == name,
        short_host_of(Some(name + seq!['.'] + domain), Some(printed)) == name,
        split::trim(printed) == name + seq!['.'] + domain ==> short_host_of(None, Some(printed))
            == name,
        split::trim(printed) == name ==> short_host_of(Some(Seq::empty()), Some(printed)) == name,
        split::trim(printed).len() == 0 ==> short_host_of(None, Some(printed)) == "unknown"@,
        short_host_of(None, None) == "unknown"@,
{
    let long = name + seq!['.'] + domain;
    let n = name.len() as int;
    assert forall|j: int| 0 <= j < n implies #[trigger] name[j] != '.' by {
        assert(name.contains(name[j]));
    }
    assert forall|j: int| 0 <= j < n implies #[trigger] long[j] != '.' by {
        assert(long[j] == name[j]);
    }
    assert(long[n] == '.');
    split::lemma_find_at(name, '.', n);
    split::lemma_find_at(long, '.', n);
    assert(name.take(n) =~= name);
    assert(long.take(n) =~= name);
}

/// The characters of a text that a file name cannot hold.
pub open spec fn are_unsafe(s: Seq<char>) -> bool {
    forall|i: int| 0 <= i < s.len() ==> !is_safe(#[trigger] s[i])
}

proof fn lemma_squeezed_run(a: Seq<char>, gap: Seq<char>)
    requires
        gap.len() > 0,
        are_unsafe(gap),
        a.len() > 0 ==> is_safe(a.last()),
    ensures
        squeezed(a + gap) == squeezed(a).push('-'),
    decreases gap.len(),
{
    let whole = a + gap;
    let fewer = gap.drop_last();
    assert(whole.drop_last() =~= a + fewer);
    assert(whole.last() == gap[gap.len() - 1]);
    if gap.len() == 1 {
        assert(a + fewer =~= a);
        if a.len() > 0 {
            assert(whole[whole.len() - 2] == a.last());
        }
    } else {
        assert forall|i: int| 0 <= i < fewer.len() implies !is_safe(#[trigger] fewer[i]) by {
            assert(fewer[i] == gap[i]);
        }
        lemma_squeezed_run(a, fewer);
        assert(whole[whole.len() - 2] == gap[gap.len() - 2]);
    }
}

proof fn lemma_squeezed_behind(front: Seq<char>, name: Seq<char>)
    requires
        forall|i: int| 0 <= i < name.len() ==> is_safe(#[trigger] name[i]),
    ensures
        squeezed(front + name) == squeezed(front) + name,
    decreases name.len(),
{
    if name.len() == 0 {
        assert(front + name =~= front);
        assert(squeezed(front) + name =~= squeezed(front));
    } else {
        let fewer = name.drop_last();
        assert forall|i: int| 0 <= i < fewer.len() implies is_safe(#[trigger] fewer[i]) by {
            assert(fewer[i] == name[i]);
        }
        lemma_squeezed_behind(front, fewer);
        let whole = front + name;
        assert(whole.drop_last() =~= front + fewer);
        assert(whole.last() == name[name.len() - 1]);
        assert(squeezed(whole) =~= squeezed(front) + name);
    }
}

/// What a file name cannot hold between two names becomes one hyphen, however long it is; the
/// names stay, as far as there is room for 160 characters.
pub proof fn lemma_safe_name_joins(a: Seq<char>, gap: Seq<char>, b: Seq<char>)
    requires
        is_safe_name(a),
        is_safe_name(b),
        gap.len() > 0,
        are_unsafe(gap),
        a.len() + 1 + b.len() <= 160,
    ensures
        safe(a + gap + b) == a + seq!['-'] + b,
{
    lemma_safe_is_kept(a);
    assert(is_safe(a[a.len() - 1]));
    lemma_squeezed_run(a, gap);
    lemma_squeezed_behind(a + gap, b);
    let name = a + seq!['-'] + b;
    assert(a.push('-') + b =~= name);
    assert(name[0] == a[0]);
    assert(name.last() == b.last());
    assert(strip_front(name) == name);
    assert(strip_back(name) == name);
}

/// Of a name that is too long the first 160 characters count.
pub proof fn lemma_safe_name_is_cut(name: Seq<char>, more: Seq<char>)
    requires
        is_safe_name(name),
        name.len() == 160,
    ensures
        safe(name + more) == name,
{
    lemma_safe_is_kept(name);
    lemma_squeezed_grows(name + more, 160);
    assert((name + more).take(160) =~= name);
    let whole = squeezed(name + more);
    if whole.len() == 160 {
        assert(whole.take(160) =~= whole);
    }
    assert(at_most(whole, 160) =~= name);
    assert(strip_front(name) == name);
    assert(strip_back(name) == name);
}

/// A safe name holds letters, digits, dots, underscores and hyphens, at most 160 of them, and
/// neither begins nor ends with a dot or a hyphen; and every such name is one.
pub proof fn lemma_safe_names(name: Seq<char>)
    ensures
        is_safe_name(name) == (0 < name.len() <= 160 && name[0] != '.' && name[0] != '-'
            && name.last() != '.' && name.last() != '-' && forall|i: int|
            0 <= i < name.len() ==> {
                let c = #[trigger] name[i];
                'a' <= c <= 'z' || 'A' <= c <= 'Z' || '0' <= c <= '9' || c == '.' || c == '_' || c
                    == '-'
            }),
{
    if is_safe_name(name) {
        assert forall|i: int| 0 <= i < name.len() implies {
            let c = #[trigger] name[i];
            'a' <= c <= 'z' || 'A' <= c <= 'Z' || '0' <= c <= '9' || c == '.' || c == '_' || c
                == '-'
        } by {
            assert(is_safe(name[i]));
        }
    }
}

/// The file of a session or a link has its safe name; that of an event has its time, in twenty
/// digits, before its identifier.
pub proof fn lemma_file_names(id: Seq<char>, nanos: nat)
    ensures
        file_of(id) == safe(id) + ".json"@,
        event_stem(nanos, id) == number::zero_padded(nanos, 20) + "-"@ + id,
        event_file(nanos, id) == number::zero_padded(nanos, 20) + "-"@ + id + ".json"@,
{
}

/// What is written before it takes its place is a hidden file of its own: two writers do not
/// share one.
pub proof fn lemma_temporary_names(
    file: Option<Seq<char>>,
    process: nat,
    one: Seq<char>,
    other: Seq<char>,
)
    requires
        one != other,
    ensures
        temporary_of(file, process, one)[0] == '.',
        temporary_of(file, process, one) != temporary_of(file, process, other),
        file matches Some(name) ==> ("."@ + name + "."@).is_prefix_of(
            temporary_of(file, process, one),
        ),
{
    reveal_strlit(".");
    let name = match file {
        Some(file) => file,
        None => "state.json"@,
    };
    let front = "."@ + name + "."@ + number::decimal(process) + "."@;
    let a = temporary_of(file, process, one);
    let b = temporary_of(file, process, other);
    assert(a[0] == "."@[0]);
    assert(a.skip(front.len() as int) =~= one);
    assert(b.skip(front.len() as int) =~= other);
    let start = "."@ + name + "."@;
    assert(start =~= a.subrange(0, start.len() as int));
}

} // verus!
