//! Lifecycle hooks of coding agents, turned into events.
use vstd::prelude::*;

use crate::compact;
use crate::compact::compact_text;
use crate::ids;
use crate::ids::{id_of_name, new_id};
use crate::json;
use crate::json::{field_value, Json, Node, Tree, TreeNode};
use crate::model::{Event, EventView, MESSAGE_LIMIT, SCHEMA_VERSION, TASK_LIMIT};
use crate::paths;
use crate::paths::file_name;
use crate::split;
use crate::split::{joined_texts, split_lines, trimmed};
use crate::text;
use crate::text::{same, same_ignoring_case, to_chars, to_lower, to_text};
use crate::time;
use crate::time::utc_now;

verus! {

// ---------------------------------------------------------------------------
// Fields of a payload
// ---------------------------------------------------------------------------

pub open spec fn names(keys: Seq<&str>) -> Seq<Seq<char>> {
    Seq::new(keys.len(), |i: int| keys[i]@)
}

/// A value as text: a string that is not empty, a number or a boolean.
pub open spec fn string_value(value: Tree) -> Option<Seq<char>> {
    match value.node {
        TreeNode::Text(s) => if s.len() > 0 {
            Some(s)
        } else {
            None
        },
        TreeNode::Number(_) => Some(value.text),
        TreeNode::Bool(b) => Some(
            if b {
                "true"@
            } else {
                "false"@
            },
        ),
        _ => None,
    }
}

/// The text of the first of the fields that has one.
pub open spec fn string_field_of(fields: Seq<(Seq<char>, Tree)>, keys: Seq<Seq<char>>) -> Option<
    Seq<char>,
>
    decreases keys.len(),
{
    if keys.len() == 0 {
        None
    } else {
        match json::field(fields, keys[0]) {
            Some(value) if string_value(value) is Some => string_value(value),
            _ => string_field_of(fields, keys.drop_first()),
        }
    }
}

fn value_text(value: &Json) -> (r: Option<String>)
    ensures
        match r {
            Some(s) => string_value(value@) == Some(s@),
            None => string_value(value@) is None,
        },
{
    match &value.node {
        Node::Text(s) => if s.as_str().is_empty() {
            None
        } else {
            Some(s.clone())
        },
        Node::Number(_) => Some(value.text.clone()),
        Node::Bool(b) => Some(
            if *b {
                "true".to_owned()
            } else {
                "false".to_owned()
            },
        ),
        _ => None,
    }
}

pub fn string_field(payload: &Vec<(String, Json)>, keys: &Vec<&str>) -> (r: Option<String>)
    ensures
        match r {
            Some(s) => string_field_of(json::fields_of(payload@), names(keys@)) == Some(s@),
            None => string_field_of(json::fields_of(payload@), names(keys@)) is None,
        },
{
    let ghost fields = json::fields_of(payload@);
    let ghost all = names(keys@);
    let mut i: usize = 0;
    assert(all.skip(0) =~= all);
    while i < keys.len()
        invariant
            i <= keys@.len(),
            fields == json::fields_of(payload@),
            all == names(keys@),
            string_field_of(fields, all) == string_field_of(fields, all.skip(i as int)),
        decreases keys@.len() - i,
    {
        assert(all.skip(i as int)[0] == keys@[i as int]@);
        assert(all.skip(i as int).drop_first() =~= all.skip(i + 1));
        if let Some(value) = field_value(payload, keys[i]) {
            if let Some(s) = value_text(value) {
                return Some(s);
            }
        }
        i += 1;
    }
    None
}

// ---------------------------------------------------------------------------
// What an event means
// ---------------------------------------------------------------------------

/// The name of an event in one spelling.
pub open spec fn normalized(event: Seq<char>) -> Seq<char> {
    text::lower(
        Seq::new(
            event.len(),
            |i: int|
                if event[i] == '_' {
                    '-'
                } else {
                    event[i]
                },
        ),
    )
}

/// The event says that a tool was used.
pub open spec fn activity(event: Seq<char>) -> bool {
    normalized(event) == "posttooluse"@ || normalized(event) == "post-tool-use"@
}

/// The state that a session is in after the event, if the event tells.
pub open spec fn state_after(event: Seq<char>, fields: Seq<(Seq<char>, Tree)>) -> Option<
    Seq<char>,
> {
    let name = normalized(event);
    if name == "userpromptsubmit"@ || name == "user-prompt-submit"@ || activity(event) {
        Some("running"@)
    } else if name == "agent-turn-complete"@ || name == "stop"@ {
        Some("ready"@)
    } else if name == "stopfailure"@ || name == "stop-failure"@ {
        Some("error"@)
    } else if name == "sessionend"@ || name == "session-end"@ {
        Some("stopped"@)
    } else if name == "sessionstart"@ || name == "session-start"@ {
        match string_field_of(fields, seq!["source"@]) {
            Some(source) if text::lower(source) == text::lower("compact"@) => None,
            _ => Some("idle"@),
        }
    } else if name == "permissionrequest"@ || name == "permission-request"@ {
        Some("approval"@)
    } else if name == "notification"@ {
        match string_field_of(fields, seq!["notification_type"@, "notification-type"@]) {
            Some(what) if what == "permission_prompt"@ => Some("approval"@),
            Some(what) if what == "idle_prompt"@ => Some("ready"@),
            _ => None,
        }
    } else {
        None
    }
}

fn normalized_name(event: &str) -> (r: String)
    ensures
        r@ == normalized(event@),
{
    let chars = to_chars(event);
    let mut out = String::new();
    let mut i: usize = 0;
    let ghost dashed = Seq::new(
        event@.len(),
        |i: int|
            if event@[i] == '_' {
                '-'
            } else {
                event@[i]
            },
    );
    while i < chars.len()
        invariant
            chars@ == event@,
            dashed.len() == event@.len(),
            forall|i: int|
                0 <= i < dashed.len() ==> (#[trigger] dashed[i]) == (if event@[i] == '_' {
                    '-'
                } else {
                    event@[i]
                }),
            i <= chars@.len(),
            out@ == dashed.take(i as int),
        decreases chars@.len() - i,
    {
        out.push(
            if chars[i] == '_' {
                '-'
            } else {
                chars[i]
            },
        );
        i += 1;
        assert(out@ =~= dashed.take(i as int));
    }
    assert(out@ =~= dashed);
    to_lower(out.as_str())
}

/// Tool-use heartbeats: they prove the agent is working (including turns resumed by
/// background tasks, which never announce a prompt), but fire far too often to append to
/// the event log.
pub fn is_activity(event: &str) -> (r: bool)
    ensures
        r == activity(event@),
{
    let name = normalized_name(event);
    same(name.as_str(), "posttooluse") || same(name.as_str(), "post-tool-use")
}

/// The state that a session is in after the event; `None` for an event to ignore.
pub fn normalize_state(event: &str, payload: &Vec<(String, Json)>) -> (r: Option<String>)
    ensures
        match r {
            Some(state) => state_after(event@, json::fields_of(payload@)) == Some(state@),
            None => state_after(event@, json::fields_of(payload@)) is None,
        },
{
    let normalized = normalized_name(event);
    let name = normalized.as_str();
    let state = if same(name, "userpromptsubmit") || same(name, "user-prompt-submit")
        || is_activity(event) {
        "running"
    } else if same(name, "agent-turn-complete") || same(name, "stop") {
        "ready"
    } else if same(name, "stopfailure") || same(name, "stop-failure") {
        "error"
    } else if same(name, "sessionend") || same(name, "session-end") {
        "stopped"
    } else if same(name, "sessionstart") || same(name, "session-start") {
        let keys = vec!["source"];
        assert(names(keys@) =~= seq!["source"@]);
        if let Some(source) = string_field(payload, &keys) {
            if same_ignoring_case(source.as_str(), "compact") {
                return None;
            }
        }
        "idle"
    } else if same(name, "permissionrequest") || same(name, "permission-request") {
        "approval"
    } else if same(name, "notification") {
        let keys = vec!["notification_type", "notification-type"];
        assert(names(keys@) =~= seq!["notification_type"@, "notification-type"@]);
        match string_field(payload, &keys) {
            Some(what) => if same(what.as_str(), "permission_prompt") {
                "approval"
            } else if same(what.as_str(), "idle_prompt") {
                "ready"
            } else {
                return None;
            },
            None => return None,
        }
    } else {
        return None;
    };
    Some(state.to_owned())
}

// ---------------------------------------------------------------------------
// Tasks
// ---------------------------------------------------------------------------

/// A value in running text: a string as it is, anything else as JSON.
pub open spec fn plain(value: Tree) -> Seq<char> {
    match value.node {
        TreeNode::Text(s) => s,
        _ => value.text,
    }
}

pub open spec fn plain_all(values: Seq<Tree>) -> Seq<Seq<char>> {
    Seq::new(values.len(), |i: int| plain(values[i]))
}

/// What a value says in words.
pub open spec fn wording(value: Tree) -> Seq<char> {
    match value.node {
        TreeNode::Null => Seq::empty(),
        TreeNode::Text(s) => s,
        TreeNode::Array(values) => split::join(plain_all(values), " "@),
        TreeNode::Object(fields) => match json::field(fields, "text"@) {
            Some(inner) => plain(inner),
            None => match json::field(fields, "content"@) {
                Some(inner) => plain(inner),
                None => Seq::empty(),
            },
        },
        _ => value.text,
    }
}

/// The first of the fields that says anything, shortened to a task.
pub open spec fn task_from(fields: Seq<(Seq<char>, Tree)>, keys: Seq<Seq<char>>) -> Seq<char>
    decreases keys.len(),
{
    if keys.len() == 0 {
        Seq::empty()
    } else {
        match json::field(fields, keys[0]) {
            Some(value) if compact::compacted(wording(value), TASK_LIMIT as nat).len() > 0 => {
                compact::compacted(wording(value), TASK_LIMIT as nat)
            },
            _ => task_from(fields, keys.drop_first()),
        }
    }
}

fn plain_text(value: &Json) -> (r: String)
    ensures
        r@ == plain(value@),
{
    match &value.node {
        Node::Text(s) => s.clone(),
        _ => value.text.clone(),
    }
}

/// What a value says in words, on one line and within the limit.
pub fn compact_value(value: &Json, limit: usize) -> (r: String)
    ensures
        r@ == compact::compacted(wording(value@), limit as nat),
{
    let raw = match &value.node {
        Node::Null => String::new(),
        Node::Text(s) => s.clone(),
        Node::Array(values) => {
            let mut parts: Vec<String> = Vec::new();
            let mut i: usize = 0;
            while i < values.len()
                invariant
                    i <= values@.len(),
                    parts@.len() == i,
                    forall|j: int| 0 <= j < i ==> (#[trigger] parts@[j])@ == plain(values@[j]@),
                decreases values@.len() - i,
            {
                parts.push(plain_text(&values[i]));
                i += 1;
            }
            proof {
                assert(value@.node->Array_0 =~= json::trees(values@));
                assert(split::texts(parts@) =~= plain_all(json::trees(values@)));
            }
            joined_texts(&parts, " ")
        },
        Node::Object(fields) => {
            assert(value@.node->Object_0 =~= json::fields_of(fields@));
            match field_value(fields, "text") {
                Some(inner) => plain_text(inner),
                None => match field_value(fields, "content") {
                    Some(inner) => plain_text(inner),
                    None => String::new(),
                },
            }
        },
        _ => value.text.clone(),
    };
    compact_text(raw.as_str(), limit)
}

fn task_from_payload(payload: &Vec<(String, Json)>, keys: &Vec<&str>) -> (r: String)
    ensures
        r@ == task_from(json::fields_of(payload@), names(keys@)),
{
    let ghost fields = json::fields_of(payload@);
    let ghost all = names(keys@);
    let mut i: usize = 0;
    assert(all.skip(0) =~= all);
    while i < keys.len()
        invariant
            i <= keys@.len(),
            fields == json::fields_of(payload@),
            all == names(keys@),
            task_from(fields, all) == task_from(fields, all.skip(i as int)),
        decreases keys@.len() - i,
    {
        assert(all.skip(i as int)[0] == keys@[i as int]@);
        assert(all.skip(i as int).drop_first() =~= all.skip(i + 1));
        if let Some(value) = field_value(payload, keys[i]) {
            let task = compact_value(value, TASK_LIMIT);
            if !task.as_str().is_empty() {
                return task;
            }
        }
        i += 1;
    }
    String::new()
}

// ---------------------------------------------------------------------------
// Messages
// ---------------------------------------------------------------------------

/// Only the tail of a transcript is scanned; they grow to many megabytes and a hook must stay
/// well inside its timeout.
pub const TRANSCRIPT_TAIL_BYTES: u64 = 262_144;

/// Where the tail of a transcript of that many bytes begins.
pub fn tail_start(length: u64) -> (r: u64)
    ensures
        r == if length > TRANSCRIPT_TAIL_BYTES {
            length - TRANSCRIPT_TAIL_BYTES
        } else {
            0
        },
{
    if length > TRANSCRIPT_TAIL_BYTES {
        length - TRANSCRIPT_TAIL_BYTES
    } else {
        0
    }
}

/// The texts of the content blocks that are text.
pub open spec fn block_texts(blocks: Seq<Tree>) -> Seq<Seq<char>>
    decreases blocks.len(),
{
    if blocks.len() == 0 {
        Seq::empty()
    } else {
        let before = block_texts(blocks.drop_last());
        match blocks.last().text_at("text"@) {
            Some(s) if blocks.last().text_at("type"@) == Some("text"@) => before.push(s),
            _ => before,
        }
    }
}

/// The text, unless it is blank.
pub open spec fn unless_blank(s: Seq<char>) -> Option<Seq<char>> {
    if split::trim(s).len() > 0 {
        Some(s)
    } else {
        None
    }
}

/// What the assistant says in a transcript record. There are two forms: an entry of the type
/// `assistant` with content blocks, and one with a payload of the type `agent_message`.
pub open spec fn assistant_words(record: Tree) -> Option<Seq<char>> {
    match record.get("payload"@) {
        Some(inner) if inner.text_at("type"@) == Some("agent_message"@) => {
            match inner.text_at("message"@) {
                Some(s) => unless_blank(s),
                None => None,
            }
        },
        _ => if record.text_at("type"@) == Some("assistant"@) {
            match record.get("message"@) {
                Some(message) => match message.get("content"@) {
                    Some(content) => match content.node {
                        TreeNode::Array(blocks) => unless_blank(
                            split::join(block_texts(blocks), " "@),
                        ),
                        _ => None,
                    },
                    None => None,
                },
                None => None,
            }
        } else {
            None
        },
    }
}

/// The last thing that the assistant says in the records; a line that is no record counts
/// for nothing.
pub open spec fn last_words(records: Seq<Option<Tree>>) -> Seq<char>
    decreases records.len(),
{
    if records.len() == 0 {
        Seq::empty()
    } else {
        match records.last() {
            Some(record) if assistant_words(record) is Some => compact::compacted(
                assistant_words(record)->Some_0,
                MESSAGE_LIMIT as nat,
            ),
            _ => last_words(records.drop_last()),
        }
    }
}

/// The records that the lines of a transcript hold.
pub open spec fn records_in(lines: Seq<Seq<char>>) -> Seq<Option<Tree>> {
    Seq::new(lines.len(), |i: int| json::parsed(lines[i]))
}

/// Documents that may be missing.
pub open spec fn read_as(records: Seq<Option<Json>>) -> Seq<Option<Tree>> {
    Seq::new(
        records.len(),
        |i: int|
            match records[i] {
                Some(record) => Some(record@),
                None => None,
            },
    )
}

fn text_is(value: &Json, name: &str, expected: &str) -> (r: bool)
    ensures
        r == (value@.text_at(name@) == Some(expected@)),
{
    match value.text_at(name) {
        Some(s) => same(s.as_str(), expected),
        None => false,
    }
}

fn if_not_blank(s: String) -> (r: Option<String>)
    ensures
        match r {
            Some(kept) => unless_blank(s@) == Some(kept@),
            None => unless_blank(s@) is None,
        },
{
    let chars = to_chars(s.as_str());
    if trimmed(chars.as_slice()).len() > 0 {
        Some(s)
    } else {
        None
    }
}

/// What the assistant says in a transcript record.
pub fn assistant_text(record: &Json) -> (r: Option<String>)
    ensures
        match r {
            Some(s) => assistant_words(record@) == Some(s@),
            None => assistant_words(record@) is None,
        },
{
    if let Some(inner) = record.get("payload") {
        if text_is(inner, "type", "agent_message") {
            return match inner.text_at("message") {
                Some(s) => if_not_blank(s.clone()),
                None => None,
            };
        }
    }
    if !text_is(record, "type", "assistant") {
        return None;
    }
    let message = match record.get("message") {
        Some(message) => message,
        None => return None,
    };
    let content = match message.get("content") {
        Some(content) => content,
        None => return None,
    };
    let blocks = match content.items() {
        Some(blocks) => blocks,
        None => return None,
    };
    let ghost all = json::trees(blocks@);
    let mut parts: Vec<String> = Vec::new();
    let mut i: usize = 0;
    while i < blocks.len()
        invariant
            i <= blocks@.len(),
            all == json::trees(blocks@),
            split::texts(parts@) == block_texts(all.take(i as int)),
        decreases blocks@.len() - i,
    {
        let block = &blocks[i];
        assert(all.take(i + 1).drop_last() =~= all.take(i as int));
        assert(all.take(i + 1).last() == block@);
        let ghost earlier = parts@;
        if text_is(block, "type", "text") {
            if let Some(s) = block.text_at("text") {
                parts.push(s.clone());
                assert(split::texts(parts@) =~= split::texts(earlier).push(s@));
            }
        }
        i += 1;
    }
    assert(all.take(i as int) =~= all);
    if_not_blank(joined_texts(&parts, " "))
}

/// The last thing that the assistant says in the records.
pub fn last_message(records: &Vec<Option<Json>>) -> (r: String)
    ensures
        r@ == last_words(read_as(records@)),
{
    let ghost all = read_as(records@);
    let mut n: usize = records.len();
    assert(all.take(n as int) =~= all);
    while n > 0
        invariant
            n <= records@.len(),
            all == read_as(records@),
            last_words(all) == last_words(all.take(n as int)),
        decreases n,
    {
        assert(all.take(n as int).drop_last() =~= all.take(n - 1));
        assert(all.take(n as int).last() == all[n - 1]);
        if let Some(record) = &records[n - 1] {
            if let Some(s) = assistant_text(record) {
                return compact_text(s.as_str(), MESSAGE_LIMIT);
            }
        }
        n -= 1;
    }
    String::new()
}

/// The last thing that the assistant says in the tail of a transcript. The first line may
/// be a fragment of a record that the tail cuts through.
pub fn message_from_transcript(tail: &str) -> (r: String)
    ensures
        r@ == last_words(records_in(split::lines(tail@))),
{
    let chars = to_chars(tail);
    let lines = split_lines(chars.as_slice());
    let ghost every = split::lines(tail@);
    let mut records: Vec<Option<Json>> = Vec::new();
    let mut i: usize = 0;
    while i < lines.len()
        invariant
            i <= lines@.len(),
            every == split::views(lines@),
            read_as(records@) == records_in(every.take(i as int)),
        decreases lines@.len() - i,
    {
        let ghost earlier = records@;
        let line = to_text(lines[i]);
        let record = match json::read(line.as_str()) {
            Ok(record) => Some(record),
            Err(_) => None,
        };
        records.push(record);
        i += 1;
        assert(read_as(records@) =~= read_as(earlier).push(json::parsed(line@)));
        assert(records_in(every.take(i as int)) =~= records_in(every.take(i - 1)).push(
            json::parsed(line@),
        ));
    }
    assert(every.take(i as int) =~= every);
    last_message(&records)
}

// ---------------------------------------------------------------------------
// Events
// ---------------------------------------------------------------------------

/// Where a hook runs.
pub struct HookContext {
    /// The task that the user has set for the agent.
    pub task: Option<String>,
    pub current_dir: Option<String>,
    pub tmux_pane: Option<String>,
    /// The tmux pane by the name that is shown for it.
    pub tmux: String,
    pub host: String,
}

/// What a value of `HookContext` says.
pub struct HookContextView {
    pub task: Option<Seq<char>>,
    pub current_dir: Option<Seq<char>>,
    pub tmux_pane: Option<Seq<char>>,
    pub tmux: Seq<char>,
    pub host: Seq<char>,
}

impl View for HookContext {
    type V = HookContextView;

    open spec fn view(&self) -> HookContextView {
        HookContextView {
            task: text::optional(self.task),
            current_dir: text::optional(self.current_dir),
            tmux_pane: text::optional(self.tmux_pane),
            tmux: self.tmux@,
            host: self.host@,
        }
    }
}

/// The name of the event that a payload reports.
pub open spec fn event_name_of(
    fields: Seq<(Seq<char>, Tree)>,
    explicit_event: Option<Seq<char>>,
) -> Seq<char> {
    match explicit_event {
        Some(event) => event,
        None => match string_field_of(fields, seq!["hook_event_name"@, "hookEventName"@, "type"@]) {
            Some(event) => event,
            None => "unknown"@,
        },
    }
}

/// The directory that a session works in.
pub open spec fn directory_of(
    fields: Seq<(Seq<char>, Tree)>,
    current_dir: Option<Seq<char>>,
) -> Seq<char> {
    match string_field_of(fields, seq!["cwd"@]) {
        Some(cwd) => cwd,
        None => match current_dir {
            Some(cwd) => cwd,
            None => "."@,
        },
    }
}

/// The name of a session that has none of its own is made from this.
pub open spec fn session_source(
    provider: Seq<char>,
    cwd: Seq<char>,
    tmux_pane: Option<Seq<char>>,
) -> Seq<char> {
    text::lower(provider) + "|"@ + cwd + "|"@ + text::or_empty(tmux_pane)
}

pub open spec fn session_of(fields: Seq<(Seq<char>, Tree)>, fallback: Seq<char>) -> Seq<char> {
    match string_field_of(
        fields,
        seq!["session_id"@, "session-id"@, "thread_id"@, "thread-id"@],
    ) {
        Some(session) => session,
        None => fallback,
    }
}

/// What the session is working on. The user's word goes first; otherwise a prompt tells,
/// or the messages that a completed turn answered.
pub open spec fn task_of(
    chosen: Option<Seq<char>>,
    event: Seq<char>,
    state: Seq<char>,
    fields: Seq<(Seq<char>, Tree)>,
) -> Seq<char> {
    let given = compact::compacted(text::or_empty(chosen), TASK_LIMIT as nat);
    if given.len() > 0 {
        given
    } else if state == "running"@ && !activity(event) {
        task_from(fields, seq!["prompt"@, "input"@, "input_messages"@, "input-messages"@])
    } else if normalized(event) == "agent-turn-complete"@ {
        task_from(fields, seq!["input_messages"@, "input-messages"@])
    } else {
        Seq::empty()
    }
}

/// The project is named after its directory.
pub open spec fn project_of(cwd: Seq<char>) -> Seq<char> {
    match paths::last_name(cwd) {
        Some(name) if name.len() > 0 => name,
        _ => cwd,
    }
}

/// The message in the payload itself.
pub open spec fn direct_message(fields: Seq<(Seq<char>, Tree)>) -> Seq<char> {
    text::or_empty(
        string_field_of(
            fields,
            seq!["last-assistant-message"@, "last_assistant_message"@, "lastAssistantMessage"@],
        ),
    )
}

/// The transcript that the payload points to.
pub open spec fn transcript_named(fields: Seq<(Seq<char>, Tree)>) -> Option<Seq<char>> {
    string_field_of(fields, seq!["transcript_path"@, "transcript-path"@])
}

/// The transcript that is needed for the message of an event: none for an event to ignore,
/// for a heartbeat in the middle of a turn, or where the payload has the message.
pub open spec fn transcript_needed(
    fields: Seq<(Seq<char>, Tree)>,
    explicit_event: Option<Seq<char>>,
) -> Option<Seq<char>> {
    let event = event_name_of(fields, explicit_event);
    if state_after(event, fields) is Some && !activity(event) && direct_message(fields).len() == 0 {
        transcript_named(fields)
    } else {
        None
    }
}

/// The last assistant message: that of the payload, else what the transcript says.
pub open spec fn message_of(
    event: Seq<char>,
    fields: Seq<(Seq<char>, Tree)>,
    from_transcript: Seq<char>,
) -> Seq<char> {
    if activity(event) {
        Seq::empty()
    } else if direct_message(fields).len() > 0 {
        compact::compacted(direct_message(fields), MESSAGE_LIMIT as nat)
    } else if transcript_named(fields) is Some {
        from_transcript
    } else {
        Seq::empty()
    }
}

/// The event that a payload reports, if it is one to record.
pub open spec fn event_of(
    provider: Seq<char>,
    fields: Seq<(Seq<char>, Tree)>,
    explicit_event: Option<Seq<char>>,
    context: HookContextView,
    fallback_session: Seq<char>,
    from_transcript: Seq<char>,
    event_id: Seq<char>,
    updated_at: Seq<char>,
) -> Option<EventView> {
    let event = event_name_of(fields, explicit_event);
    match state_after(event, fields) {
        None => None,
        Some(state) => {
            let cwd = directory_of(fields, context.current_dir);
            let session_id = session_of(fields, fallback_session);
            Some(
                EventView {
                    schema_version: SCHEMA_VERSION,
                    event_id,
                    provider: text::lower(provider),
                    event,
                    session_id,
                    run_id: text::lower(provider) + "-"@ + session_id,
                    host: context.host,
                    cwd,
                    project: project_of(cwd),
                    tmux: context.tmux,
                    task: task_of(context.task, event, state, fields),
                    message: message_of(event, fields, from_transcript),
                    state,
                    updated_at,
                },
            )
        },
    }
}

fn event_name(payload: &Vec<(String, Json)>, explicit_event: Option<&str>) -> (r: String)
    ensures
        r@ == event_name_of(
            json::fields_of(payload@),
            text::given(explicit_event),
        ),
{
    match explicit_event {
        Some(event) => event.to_owned(),
        None => {
            let keys = vec!["hook_event_name", "hookEventName", "type"];
            assert(names(keys@) =~= seq!["hook_event_name"@, "hookEventName"@, "type"@]);
            match string_field(payload, &keys) {
                Some(event) => event,
                None => "unknown".to_owned(),
            }
        },
    }
}

fn directory(payload: &Vec<(String, Json)>, context: &HookContext) -> (r: String)
    ensures
        r@ == directory_of(json::fields_of(payload@), context@.current_dir),
{
    let keys = vec!["cwd"];
    assert(names(keys@) =~= seq!["cwd"@]);
    match string_field(payload, &keys) {
        Some(cwd) => cwd,
        None => match &context.current_dir {
            Some(cwd) => cwd.clone(),
            None => ".".to_owned(),
        },
    }
}

fn task(
    payload: &Vec<(String, Json)>,
    event: &str,
    state: &str,
    context: &HookContext,
) -> (r: String)
    ensures
        r@ == task_of(context@.task, event@, state@, json::fields_of(payload@)),
{
    let given = match &context.task {
        Some(chosen) => compact_text(chosen.as_str(), TASK_LIMIT),
        None => compact_text("", TASK_LIMIT),
    };
    proof {
        reveal_strlit("");
        assert(""@ =~= Seq::empty());
    }
    if !given.as_str().is_empty() {
        return given;
    }
    if same(state, "running") && !is_activity(event) {
        let keys = vec!["prompt", "input", "input_messages", "input-messages"];
        assert(names(keys@) =~= seq!["prompt"@, "input"@, "input_messages"@, "input-messages"@]);
        task_from_payload(payload, &keys)
    } else if same(normalized_name(event).as_str(), "agent-turn-complete") {
        let keys = vec!["input_messages", "input-messages"];
        assert(names(keys@) =~= seq!["input_messages"@, "input-messages"@]);
        task_from_payload(payload, &keys)
    } else {
        String::new()
    }
}

pub fn project(cwd: &str) -> (r: String)
    ensures
        r@ == project_of(cwd@),
{
    match file_name(cwd) {
        Some(name) => if name.as_str().is_empty() {
            cwd.to_owned()
        } else {
            name
        },
        None => cwd.to_owned(),
    }
}

fn direct(payload: &Vec<(String, Json)>) -> (r: String)
    ensures
        r@ == direct_message(json::fields_of(payload@)),
{
    let keys = vec!["last-assistant-message", "last_assistant_message", "lastAssistantMessage"];
    assert(names(keys@)
        =~= seq!["last-assistant-message"@, "last_assistant_message"@, "lastAssistantMessage"@]);
    match string_field(payload, &keys) {
        Some(message) => message,
        None => String::new(),
    }
}

fn transcript_path(payload: &Vec<(String, Json)>) -> (r: Option<String>)
    ensures
        text::optional(r) == transcript_named(json::fields_of(payload@)),
{
    let keys = vec!["transcript_path", "transcript-path"];
    assert(names(keys@) =~= seq!["transcript_path"@, "transcript-path"@]);
    string_field(payload, &keys)
}

/// The transcript whose tail is to be read before the event is made.
pub fn transcript_to_read(payload: &Vec<(String, Json)>, explicit_event: Option<&str>) -> (r:
    Option<String>)
    ensures
        text::optional(r) == transcript_needed(
            json::fields_of(payload@),
            text::given(explicit_event),
        ),
{
    let event = event_name(payload, explicit_event);
    match normalize_state(event.as_str(), payload) {
        None => None,
        Some(_) => if !is_activity(event.as_str()) && direct(payload).as_str().is_empty() {
            transcript_path(payload)
        } else {
            None
        },
    }
}

/// The last assistant message. Some agents put the text straight in the payload, others only
/// give a path to the transcript. A heartbeat in the middle of a turn has no finished
/// answer to show.
fn last_assistant_message(
    payload: &Vec<(String, Json)>,
    event: &str,
    from_transcript: &str,
) -> (r: String)
    ensures
        r@ == message_of(event@, json::fields_of(payload@), from_transcript@),
{
    if is_activity(event) {
        return String::new();
    }
    let direct = direct(payload);
    if !direct.as_str().is_empty() {
        return compact_text(direct.as_str(), MESSAGE_LIMIT);
    }
    match transcript_path(payload) {
        Some(_) => from_transcript.to_owned(),
        None => String::new(),
    }
}

/// The session that a hook belongs to where the payload does not name one. It is the same
/// for every hook of one agent in one directory and pane.
pub fn fallback_session(
    provider: &str,
    payload: &Vec<(String, Json)>,
    context: &HookContext,
) -> (r: String)
    ensures
        r@ == ids::url_uuid(
            session_source(
                provider@,
                directory_of(json::fields_of(payload@), context@.current_dir),
                context@.tmux_pane,
            ),
        ),
{
    let cwd = directory(payload, context);
    let mut source = to_lower(provider);
    source.append("|");
    source.append(cwd.as_str());
    source.append("|");
    if let Some(pane) = &context.tmux_pane {
        source.append(pane.as_str());
    }
    assert(source@ =~= session_source(provider@, cwd@, context@.tmux_pane));
    id_of_name(source.as_str())
}

/// The event that a payload reports, given what only the outside can tell.
pub fn event_from(
    provider: &str,
    payload: &Vec<(String, Json)>,
    explicit_event: Option<&str>,
    context: &HookContext,
    fallback_session: &str,
    from_transcript: &str,
    event_id: String,
    updated_at: String,
) -> (r: Option<Event>)
    ensures
        match r {
            Some(event) => Some(event.deep_view()),
            None => None,
        } == event_of(
            provider@,
            json::fields_of(payload@),
            text::given(explicit_event),
            context@,
            fallback_session@,
            from_transcript@,
            event_id@,
            updated_at@,
        ),
{
    let event = event_name(payload, explicit_event);
    let state = match normalize_state(event.as_str(), payload) {
        Some(state) => state,
        None => return None,
    };
    let provider = to_lower(provider);
    let cwd = directory(payload, context);
    let keys = vec!["session_id", "session-id", "thread_id", "thread-id"];
    assert(names(keys@) =~= seq!["session_id"@, "session-id"@, "thread_id"@, "thread-id"@]);
    let session_id = match string_field(payload, &keys) {
        Some(session) => session,
        None => fallback_session.to_owned(),
    };
    let mut run_id = provider.clone();
    run_id.append("-");
    run_id.append(session_id.as_str());
    let task = task(payload, event.as_str(), state.as_str(), context);
    let project = project(cwd.as_str());
    let message = last_assistant_message(payload, event.as_str(), from_transcript);
    Some(
        Event {
            schema_version: SCHEMA_VERSION,
            event_id,
            provider,
            event,
            session_id,
            run_id,
            host: context.host.clone(),
            cwd,
            project,
            tmux: context.tmux.clone(),
            task,
            message,
            state,
            updated_at,
        },
    )
}

/// What the transcript of a session says, as far as it could be read.
pub open spec fn transcript_words(tail: Option<Seq<char>>) -> Seq<char> {
    match tail {
        Some(tail) => last_words(records_in(split::lines(tail))),
        None => Seq::empty(),
    }
}

/// Turns a hook's payload into the event to record, or `None` if there is nothing to
/// record. `transcript` is the tail of the transcript to read, if it could be read.
pub fn normalize_event(
    provider: &str,
    payload: &Vec<(String, Json)>,
    explicit_event: Option<&str>,
    context: &HookContext,
    transcript: Option<&str>,
) -> (r: Option<Event>)
    ensures
        exists|event_id: Seq<char>, at: time::Timestamp|
            #![trigger ids::is_uuid(event_id, '4'), at.valid()]
            ids::is_uuid(event_id, '4') && at.valid() && at.seconds >= 0 && match r {
                Some(event) => Some(event.deep_view()),
                None => None,
            } == event_of(
                provider@,
                json::fields_of(payload@),
                text::given(explicit_event),
                context@,
                ids::url_uuid(
                    session_source(
                        provider@,
                        directory_of(json::fields_of(payload@), context@.current_dir),
                        context@.tmux_pane,
                    ),
                ),
                transcript_words(
                    text::given(transcript),
                ),
                event_id,
                time::rfc3339(at.seconds, at.nanos),
            ),
{
    let session = fallback_session(provider, payload, context);
    let message = match transcript {
        Some(tail) => message_from_transcript(tail),
        None => String::new(),
    };
    let event_id = new_id();
    let updated_at = utc_now();
    let ghost id = event_id@;
    let ghost at = choose|at: time::Timestamp|
        #![trigger at.valid()]
        at.valid() && at.seconds >= 0 && updated_at@ == time::rfc3339(at.seconds, at.nanos);
    assert(ids::is_uuid(id, '4') && at.valid());
    event_from(
        provider,
        payload,
        explicit_event,
        context,
        session.as_str(),
        message.as_str(),
        event_id,
        updated_at,
    )
}

/// A heartbeat marks the session running. It shows no message from the middle of a turn,
/// and no task but the one that the user has set.
pub proof fn lemma_heartbeat(
    event: Seq<char>,
    fields: Seq<(Seq<char>, Tree)>,
    chosen: Option<Seq<char>>,
    from_transcript: Seq<char>,
)
    requires
        activity(event),
    ensures
        state_after(event, fields) == Some("running"@),
        message_of(event, fields, from_transcript) == Seq::<char>::empty(),
        task_of(chosen, event, "running"@, fields) == compact::compacted(
            text::or_empty(chosen),
            TASK_LIMIT as nat,
        ),
{
    reveal_strlit("posttooluse");
    reveal_strlit("post-tool-use");
    reveal_strlit("agent-turn-complete");
    assert(normalized(event).len() < "agent-turn-complete"@.len());
    assert(compact::compacted(text::or_empty(chosen), TASK_LIMIT as nat).len() == 0 ==> compact::compacted(
        text::or_empty(chosen),
        TASK_LIMIT as nat,
    ) =~= Seq::empty());
}

/// The session is running, ready, idle, stopped, in error or waiting for an approval.
pub proof fn lemma_states(event: Seq<char>, fields: Seq<(Seq<char>, Tree)>)
    ensures
        state_after(event, fields) matches Some(state) ==> state == "running"@ || state
            == "ready"@ || state == "idle"@ || state == "stopped"@ || state == "error"@ || state
            == "approval"@,
{
}

/// Where no transcript is needed, the event does not depend on what one says.
pub proof fn lemma_transcript_only_if_needed(
    fields: Seq<(Seq<char>, Tree)>,
    explicit_event: Option<Seq<char>>,
    one: Seq<char>,
    other: Seq<char>,
)
    requires
        transcript_needed(fields, explicit_event) is None,
        state_after(event_name_of(fields, explicit_event), fields) is Some,
    ensures
        message_of(event_name_of(fields, explicit_event), fields, one) == message_of(
            event_name_of(fields, explicit_event),
            fields,
            other,
        ),
{
}

proof fn lemma_task_from_short(fields: Seq<(Seq<char>, Tree)>, keys: Seq<Seq<char>>)
    ensures
        task_from(fields, keys).len() <= TASK_LIMIT,
        compact::is_tidy(task_from(fields, keys)),
    decreases keys.len(),
{
    if keys.len() > 0 {
        if let Some(value) = json::field(fields, keys[0]) {
            compact::lemma_compacted_length(wording(value), TASK_LIMIT as nat);
            compact::lemma_compacted_is_tidy(wording(value), TASK_LIMIT as nat);
        }
        lemma_task_from_short(fields, keys.drop_first());
    }
}

proof fn lemma_last_words_short(records: Seq<Option<Tree>>)
    ensures
        last_words(records).len() <= MESSAGE_LIMIT,
        compact::is_tidy(last_words(records)),
    decreases records.len(),
{
    if records.len() > 0 {
        if let Some(record) = records.last() {
            if let Some(said) = assistant_words(record) {
                compact::lemma_compacted_length(said, MESSAGE_LIMIT as nat);
                compact::lemma_compacted_is_tidy(said, MESSAGE_LIMIT as nat);
            }
        }
        lemma_last_words_short(records.drop_last());
    }
}

/// The task and the message of an event are single lines within their limits, whatever the
/// payload and the transcript hold.
pub proof fn lemma_event_is_short(
    provider: Seq<char>,
    fields: Seq<(Seq<char>, Tree)>,
    explicit_event: Option<Seq<char>>,
    context: HookContextView,
    fallback: Seq<char>,
    tail: Option<Seq<char>>,
    event_id: Seq<char>,
    updated_at: Seq<char>,
)
    ensures
        event_of(
            provider,
            fields,
            explicit_event,
            context,
            fallback,
            transcript_words(tail),
            event_id,
            updated_at,
        ) matches Some(event) ==> {
            &&& event.task.len() <= TASK_LIMIT
            &&& compact::is_tidy(event.task)
            &&& event.message.len() <= MESSAGE_LIMIT
            &&& compact::is_tidy(event.message)
        },
{
    let direct = direct_message(fields);
    compact::lemma_compacted_length(text::or_empty(context.task), TASK_LIMIT as nat);
    compact::lemma_compacted_is_tidy(text::or_empty(context.task), TASK_LIMIT as nat);
    compact::lemma_compacted_length(direct, MESSAGE_LIMIT as nat);
    compact::lemma_compacted_is_tidy(direct, MESSAGE_LIMIT as nat);
    lemma_task_from_short(
        fields,
        seq!["prompt"@, "input"@, "input_messages"@, "input-messages"@],
    );
    lemma_task_from_short(fields, seq!["input_messages"@, "input-messages"@]);
    if let Some(tail) = tail {
        lemma_last_words_short(records_in(split::lines(tail)));
    }
}

/// The tmux pane by the name that is shown for it: what tmux printed for the pane, or the
/// pane itself where tmux had nothing to say.
pub open spec fn target_of(pane: Option<Seq<char>>, printed: Option<Seq<char>>) -> Seq<char> {
    match pane {
        None => Seq::empty(),
        Some(pane) => match printed {
            Some(out) if split::trim(out).len() > 0 => split::trim(out),
            _ => pane,
        },
    }
}

/// `printed` is what tmux printed for the pane, if it ran well.
pub fn tmux_target(pane: Option<&str>, printed: Option<&str>) -> (r: String)
    ensures
        r@ == target_of(
            text::given(pane),
            text::given(printed),
        ),
{
    let pane = match pane {
        Some(pane) => pane,
        None => return String::new(),
    };
    if let Some(out) = printed {
        let chars = to_chars(out);
        let target = trimmed(chars.as_slice());
        if target.len() > 0 {
            return to_text(target);
        }
    }
    pane.to_owned()
}

// ---------------------------------------------------------------------------
// Payloads
// ---------------------------------------------------------------------------

/// Why a payload is refused.
pub enum PayloadError {
    /// The payload is not JSON. What is wrong with it, in words.
    Syntax(String),
    /// The payload is JSON, but not an object.
    NotAnObject,
}

impl PayloadError {
    pub open spec fn text(self) -> Seq<char> {
        match self {
            PayloadError::Syntax(problem) => problem@,
            PayloadError::NotAnObject => "hook payload must be a JSON object"@,
        }
    }

    pub fn message(&self) -> (r: String)
        ensures
            r@ == self.text(),
    {
        match self {
            PayloadError::Syntax(problem) => problem.clone(),
            PayloadError::NotAnObject => "hook payload must be a JSON object".to_owned(),
        }
    }
}

/// The fields of a document that is an object.
pub fn payload_fields(value: Json) -> (r: Result<Vec<(String, Json)>, PayloadError>)
    ensures
        match r {
            Ok(fields) => value@.node == TreeNode::Object(json::fields_of(fields@)),
            Err(error) => !(value@.node is Object) && error == PayloadError::NotAnObject,
        },
{
    match value.node {
        Node::Object(fields) => {
            assert(value@.node->Object_0 =~= json::fields_of(fields@));
            Ok(fields)
        },
        _ => Err(PayloadError::NotAnObject),
    }
}

/// Reads the payload of a hook.
pub fn parse_payload(raw: &str) -> (r: Result<Vec<(String, Json)>, PayloadError>)
    ensures
        match r {
            Ok(fields) => json::parsed(raw@) matches Some(tree) && tree.node == TreeNode::Object(
                json::fields_of(fields@),
            ),
            Err(PayloadError::Syntax(problem)) => json::parsed(raw@) is None && problem@
                == json::refusal(raw@),
            Err(PayloadError::NotAnObject) => json::parsed(raw@) matches Some(tree)
                && !(tree.node is Object),
        },
{
    match json::read(raw) {
        Ok(value) => payload_fields(value),
        Err(problem) => Err(PayloadError::Syntax(problem)),
    }
}

/// Reads what a hook was handed; nothing at all stands for a payload without fields.
pub fn read_payload(raw: &str) -> (r: Result<Vec<(String, Json)>, PayloadError>)
    ensures
        split::trim(raw@).len() == 0 ==> (r matches Ok(fields) && fields@.len() == 0),
        split::trim(raw@).len() > 0 ==> match r {
            Ok(fields) => json::parsed(raw@) matches Some(tree) && tree.node == TreeNode::Object(
                json::fields_of(fields@),
            ),
            Err(PayloadError::Syntax(problem)) => json::parsed(raw@) is None && problem@
                == json::refusal(raw@),
            Err(PayloadError::NotAnObject) => json::parsed(raw@) matches Some(tree)
                && !(tree.node is Object),
        },
{
    let chars = to_chars(raw);
    if trimmed(chars.as_slice()).len() == 0 {
        Ok(Vec::new())
    } else {
        parse_payload(raw)
    }
}

/// What the log says of a hook that failed.
pub open spec fn failure_text(now: Seq<char>, provider: Seq<char>, problem: Seq<char>) -> Seq<char> {
    now + " "@ + provider + ": "@ + problem
}

/// The line for the log of a hook that failed.
pub fn failure_line(now: &str, provider: &str, problem: &str) -> (r: String)
    ensures
        r@ == failure_text(now@, provider@, problem@),
{
    let mut out = now.to_owned();
    out.append(" ");
    out.append(provider);
    out.append(": ");
    out.append(problem);
    out
}

// ---------------------------------------------------------------------------
// What an event tells of its payload
// ---------------------------------------------------------------------------

/// The texts of a message are those of all its blocks, in their order: what the first blocks
/// say comes before what the others say.
pub proof fn lemma_blocks_in_order(a: Seq<Tree>, b: Seq<Tree>)
    ensures
        block_texts(a + b) == block_texts(a) + block_texts(b),
    decreases b.len(),
{
    if b.len() == 0 {
        assert(a + b =~= a);
        assert(block_texts(b) =~= Seq::empty());
        assert(block_texts(a) + block_texts(b) =~= block_texts(a));
    } else {
        lemma_blocks_in_order(a, b.drop_last());
        assert((a + b).drop_last() =~= a + b.drop_last());
        assert((a + b).last() == b.last());
        assert(block_texts(a + b) =~= block_texts(a) + block_texts(b));
    }
}

/// A block of the type `text` says its text; any other block, and one without a text, says
/// nothing.
pub proof fn lemma_block(block: Tree)
    ensures
        block_texts(Seq::<Tree>::empty()) == Seq::<Seq<char>>::empty(),
        block_texts(seq![block]) == match (block.text_at("type"@), block.text_at("text"@)) {
            (Some(kind), Some(s)) => if kind == "text"@ {
                seq![s]
            } else {
                Seq::empty()
            },
            _ => Seq::empty(),
        },
{
    let one = seq![block];
    assert(one.drop_last() =~= Seq::empty());
    assert(one.last() == block);
    assert(block_texts(one.drop_last()) =~= Seq::empty());
    assert(block_texts(one) =~= match (block.text_at("type"@), block.text_at("text"@)) {
        (Some(kind), Some(s)) => if kind == "text"@ {
            seq![s]
        } else {
            Seq::empty()
        },
        _ => Seq::empty(),
    });
}

/// A record is the payload of a message of an agent.
pub open spec fn is_agent_message(record: Tree) -> bool {
    record.get("payload"@) matches Some(payload) && payload.text_at("type"@) == Some(
        "agent_message"@,
    )
}

/// A record is an entry of the assistant with these blocks of content.
pub open spec fn is_assistant_entry(record: Tree, blocks: Seq<Tree>) -> bool {
    &&& record.text_at("type"@) == Some("assistant"@)
    &&& record.get("message"@) matches Some(message) && (message.get("content"@) matches Some(
        content,
    ) && content.node == TreeNode::Array(blocks))
}

/// The assistant's words are those of all text blocks of its entry with blanks between them,
/// unless that is blank; the user's entries are not the assistant's words.
pub proof fn lemma_assistant_entry(record: Tree, blocks: Seq<Tree>)
    requires
        !is_agent_message(record),
        is_assistant_entry(record, blocks),
    ensures
        ({
            let said = split::join(block_texts(blocks), " "@);
            assistant_words(record) == if split::trim(said).len() > 0 {
                Some(said)
            } else {
                None
            }
        }),
{
}

/// An agent's message says what it holds, unless that is blank.
pub proof fn lemma_agent_message(record: Tree)
    requires
        is_agent_message(record),
    ensures
        ({
            let said = text::or_empty(record.get("payload"@)->Some_0.text_at("message"@));
            assistant_words(record) == if split::trim(said).len() > 0 {
                Some(said)
            } else {
                None
            }
        }),
{
    split::lemma_trim(Seq::empty());
}

/// A record of any other form has no words of the assistant.
pub proof fn lemma_other_records_are_silent(record: Tree)
    requires
        !is_agent_message(record),
        forall|blocks: Seq<Tree>| !is_assistant_entry(record, blocks),
    ensures
        assistant_words(record) is None,
{
    if let Some(message) = record.get("message"@) {
        if let Some(content) = message.get("content"@) {
            if let TreeNode::Array(blocks) = content.node {
                assert(!is_assistant_entry(record, blocks));
            }
        }
    }
}

/// The last record with words of the assistant gives the message, on one line of at most 2000
/// characters, whatever comes before it or, without such words, after it.
pub proof fn lemma_last_speaker(records: Seq<Option<Tree>>, i: int)
    requires
        0 <= i < records.len(),
        records[i] is Some,
        assistant_words(records[i]->Some_0) is Some,
        forall|j: int|
            i < j < records.len() && #[trigger] records[j] is Some ==> assistant_words(
                records[j]->Some_0,
            ) is None,
    ensures
        last_words(records) == compact::compacted(assistant_words(records[i]->Some_0)->Some_0, 2000),
    decreases records.len(),
{
    if i < records.len() - 1 {
        let fewer = records.drop_last();
        assert(records[records.len() - 1] == records.last());
        assert forall|j: int| i < j < fewer.len() && #[trigger] fewer[j] is Some implies assistant_words(
            fewer[j]->Some_0,
        ) is None by {
            assert(fewer[j] == records[j]);
        }
        lemma_last_speaker(fewer, i);
    }
}

/// Where no record has words of the assistant, there is no message.
pub proof fn lemma_no_speaker(records: Seq<Option<Tree>>)
    requires
        forall|j: int|
            0 <= j < records.len() && #[trigger] records[j] is Some ==> assistant_words(
                records[j]->Some_0,
            ) is None,
    ensures
        last_words(records) == Seq::<char>::empty(),
    decreases records.len(),
{
    if records.len() > 0 {
        let fewer = records.drop_last();
        assert(records[records.len() - 1] == records.last());
        assert forall|j: int| 0 <= j < fewer.len() && #[trigger] fewer[j] is Some implies assistant_words(
            fewer[j]->Some_0,
        ) is None by {
            assert(fewer[j] == records[j]);
        }
        lemma_no_speaker(fewer);
    }
}

/// The name of an event is told apart neither by the case of its letters nor by `_` for `-`.
pub proof fn lemma_event_spelling(event: Seq<char>, i: int)
    requires
        0 <= i < event.len(),
    ensures
        normalized(event).len() == event.len(),
        event[i] == '_' ==> normalized(event)[i] == '-',
        'A' <= event[i] <= 'Z' ==> normalized(event)[i] as int == event[i] as int + 32,
        event[i] != '_' && !('A' <= event[i] <= 'Z') ==> normalized(event)[i] == event[i],
{
}

/// What each event makes of its session: a prompt and a tool that was used set it running, a
/// turn that ends leaves it ready, a failure in error, a start idle and an end stopped. A
/// request for a permission waits for an approval. No other event tells a state.
pub proof fn lemma_state_of_each_event(event: Seq<char>, fields: Seq<(Seq<char>, Tree)>)
    ensures
        ({
            let name = normalized(event);
            let state = state_after(event, fields);
            &&& (name == "userpromptsubmit"@ || name == "user-prompt-submit"@ || name
                == "posttooluse"@ || name == "post-tool-use"@) ==> state == Some("running"@)
            &&& (name == "agent-turn-complete"@ || name == "stop"@) ==> state == Some("ready"@)
            &&& (name == "stopfailure"@ || name == "stop-failure"@) ==> state == Some("error"@)
            &&& (name == "sessionend"@ || name == "session-end"@) ==> state == Some("stopped"@)
            &&& (name == "permissionrequest"@ || name == "permission-request"@) ==> state == Some(
                "approval"@,
            )
            &&& (name == "sessionstart"@ || name == "session-start"@) ==> state == match string_field_of(
                fields,
                seq!["source"@],
            ) {
                Some(source) => if text::lower(source) == "compact"@ {
                    None
                } else {
                    Some("idle"@)
                },
                None => Some("idle"@),
            }
            &&& name == "notification"@ ==> state == match string_field_of(
                fields,
                seq!["notification_type"@, "notification-type"@],
            ) {
                Some(what) => if what == "permission_prompt"@ {
                    Some("approval"@)
                } else if what == "idle_prompt"@ {
                    Some("ready"@)
                } else {
                    None
                },
                None => None,
            }
            &&& state is Some ==> name == "userpromptsubmit"@ || name == "user-prompt-submit"@
                || name == "posttooluse"@ || name == "post-tool-use"@ || name
                == "agent-turn-complete"@ || name == "stop"@ || name == "stopfailure"@ || name
                == "stop-failure"@ || name == "sessionend"@ || name == "session-end"@ || name
                == "permissionrequest"@ || name == "permission-request"@ || name == "sessionstart"@
                || name == "session-start"@ || name == "notification"@
            &&& activity(event) == (name == "posttooluse"@ || name == "post-tool-use"@)
        }),
{
    reveal_strlit("userpromptsubmit");
    reveal_strlit("user-prompt-submit");
    reveal_strlit("posttooluse");
    reveal_strlit("post-tool-use");
    reveal_strlit("agent-turn-complete");
    reveal_strlit("stop");
    reveal_strlit("stopfailure");
    reveal_strlit("stop-failure");
    reveal_strlit("sessionend");
    reveal_strlit("session-end");
    reveal_strlit("permissionrequest");
    reveal_strlit("permission-request");
    reveal_strlit("sessionstart");
    reveal_strlit("session-start");
    reveal_strlit("notification");
    reveal_strlit("compact");
    assert(text::lower("compact"@) =~= "compact"@);
    assert("userpromptsubmit"@.len() == 16);
    assert("user-prompt-submit"@.len() == 18);
    assert("posttooluse"@.len() == 11);
    assert("post-tool-use"@.len() == 13);
    assert("agent-turn-complete"@.len() == 19);
    assert("stop"@.len() == 4);
    assert("stopfailure"@.len() == 11);
    assert("stop-failure"@.len() == 12);
    assert("sessionend"@.len() == 10);
    assert("session-end"@.len() == 11);
    assert("permissionrequest"@.len() == 17);
    assert("permission-request"@.len() == 18);
    assert("sessionstart"@.len() == 12);
    assert("session-start"@.len() == 13);
    assert("notification"@.len() == 12);
    assert("user-prompt-submit"@[0] == 'u' && "user-prompt-submit"@[1] == 's');
    assert("posttooluse"@[0] == 'p' && "posttooluse"@[1] == 'o');
    assert("post-tool-use"@[0] == 'p' && "post-tool-use"@[1] == 'o');
    assert("stopfailure"@[0] == 's' && "stopfailure"@[1] == 't');
    assert("stop-failure"@[0] == 's' && "stop-failure"@[1] == 't');
    assert("session-end"@[0] == 's' && "session-end"@[1] == 'e');
    assert("permission-request"@[0] == 'p' && "permission-request"@[1] == 'e');
    assert("sessionstart"@[0] == 's' && "sessionstart"@[1] == 'e');
    assert("session-start"@[0] == 's' && "session-start"@[1] == 'e');
    assert("notification"@[0] == 'n' && "notification"@[1] == 'o');
}

/// Of several fields the first one that has a text gives it.
pub proof fn lemma_first_text_counts(
    fields: Seq<(Seq<char>, Tree)>,
    keys: Seq<Seq<char>>,
    i: int,
)
    requires
        0 <= i < keys.len(),
        json::field(fields, keys[i]) is Some,
        string_value(json::field(fields, keys[i])->Some_0) is Some,
        forall|j: int|
            0 <= j < i && json::field(fields, #[trigger] keys[j]) is Some ==> string_value(
                json::field(fields, keys[j])->Some_0,
            ) is None,
    ensures
        string_field_of(fields, keys) == string_value(json::field(fields, keys[i])->Some_0),
    decreases keys.len(),
{
    if i > 0 {
        let rest = keys.drop_first();
        assert(keys[0] == keys[0]);
        assert forall|j: int|
            0 <= j < i - 1 && json::field(fields, #[trigger] rest[j]) is Some implies string_value(
            json::field(fields, rest[j])->Some_0,
        ) is None by {
            assert(rest[j] == keys[j + 1]);
        }
        lemma_first_text_counts(fields, rest, i - 1);
    }
}

/// Where none of the fields has a text there is none.
pub proof fn lemma_no_text(fields: Seq<(Seq<char>, Tree)>, keys: Seq<Seq<char>>)
    requires
        forall|j: int|
            0 <= j < keys.len() && json::field(fields, #[trigger] keys[j]) is Some ==> string_value(
                json::field(fields, keys[j])->Some_0,
            ) is None,
    ensures
        string_field_of(fields, keys) is None,
    decreases keys.len(),
{
    if keys.len() > 0 {
        let rest = keys.drop_first();
        assert(keys[0] == keys[0]);
        assert forall|j: int|
            0 <= j < rest.len() && json::field(fields, #[trigger] rest[j]) is Some implies string_value(
            json::field(fields, rest[j])->Some_0,
        ) is None by {
            assert(rest[j] == keys[j + 1]);
        }
        lemma_no_text(fields, rest);
    }
}

/// The text of a field is that of a string that is not empty, or a number or boolean as it is
/// written.
pub proof fn lemma_text_of_value(value: Tree)
    ensures
        value.node matches TreeNode::Text(s) ==> string_value(value) == if s.len() > 0 {
            Some(s)
        } else {
            None
        },
        value.node is Number ==> string_value(value) == Some(value.text),
        value.node == TreeNode::Bool(true) ==> string_value(value) == Some("true"@),
        value.node == TreeNode::Bool(false) ==> string_value(value) == Some("false"@),
        value.node is Null || value.node is Array || value.node is Object ==> string_value(
            value,
        ) is None,
{
}

/// The task is what the first of the fields with anything to say says, on one line of at most
/// 120 characters.
pub proof fn lemma_first_task_counts(
    fields: Seq<(Seq<char>, Tree)>,
    keys: Seq<Seq<char>>,
    i: int,
)
    requires
        0 <= i < keys.len(),
        json::field(fields, keys[i]) is Some,
        compact::compacted(wording(json::field(fields, keys[i])->Some_0), 120).len() > 0,
        forall|j: int|
            0 <= j < i && json::field(fields, #[trigger] keys[j]) is Some ==> compact::compacted(
                wording(json::field(fields, keys[j])->Some_0),
                120,
            ).len() == 0,
    ensures
        task_from(fields, keys) == compact::compacted(
            wording(json::field(fields, keys[i])->Some_0),
            120,
        ),
    decreases keys.len(),
{
    if i > 0 {
        let rest = keys.drop_first();
        assert(keys[0] == keys[0]);
        assert forall|j: int|
            0 <= j < i - 1 && json::field(fields, #[trigger] rest[j]) is Some implies compact::compacted(
            wording(json::field(fields, rest[j])->Some_0),
            120,
        ).len() == 0 by {
            assert(rest[j] == keys[j + 1]);
        }
        lemma_first_task_counts(fields, rest, i - 1);
    }
}

/// A string says itself, and a list all of its items with blanks between. Of an object its text
/// counts, or else its content. Whatever is no string says the JSON that it is written as.
pub proof fn lemma_wording(value: Tree, said: Seq<Seq<char>>)
    ensures
        value.node matches TreeNode::Text(s) ==> wording(value) == s,
        value.node is Null ==> wording(value) == Seq::<char>::empty(),
        value.node matches TreeNode::Array(items) ==> ((items.len() == said.len() && forall|i: int|
            0 <= i < items.len() ==> said[i] == match (#[trigger] items[i]).node {
                TreeNode::Text(s) => s,
                _ => items[i].text,
            }) ==> wording(value) == split::join(said, " "@)),
        value.get("text"@) matches Some(inner) ==> wording(value) == match inner.node {
            TreeNode::Text(s) => s,
            _ => inner.text,
        },
        value.get("text"@) is None ==> (value.get("content"@) matches Some(inner) ==> wording(value)
            == match inner.node {
            TreeNode::Text(s) => s,
            _ => inner.text,
        }),
        value.node is Object && value.get("text"@) is None && value.get("content"@) is None
            ==> wording(value) == Seq::<char>::empty(),
        value.node is Number || value.node is Bool ==> wording(value) == value.text,
{
    if let TreeNode::Array(items) = value.node {
        if items.len() == said.len() && (forall|i: int|
            0 <= i < items.len() ==> said[i] == match (#[trigger] items[i]).node {
                TreeNode::Text(s) => s,
                _ => items[i].text,
            }) {
            assert forall|i: int| 0 <= i < items.len() implies plain_all(items)[i] == said[i] by {
                assert(plain_all(items)[i] == plain(items[i]));
            }
            assert(plain_all(items) =~= said);
        }
    }
}

/// Where none of the fields has anything to say there is no task.
pub proof fn lemma_no_task(fields: Seq<(Seq<char>, Tree)>, keys: Seq<Seq<char>>)
    requires
        forall|j: int|
            0 <= j < keys.len() && json::field(fields, #[trigger] keys[j]) is Some
                ==> compact::compacted(wording(json::field(fields, keys[j])->Some_0), 120).len()
                == 0,
    ensures
        task_from(fields, keys) == Seq::<char>::empty(),
    decreases keys.len(),
{
    if keys.len() > 0 {
        let rest = keys.drop_first();
        assert(keys[0] == keys[0]);
        assert forall|j: int|
            0 <= j < rest.len() && json::field(fields, #[trigger] rest[j]) is Some implies compact::compacted(
            wording(json::field(fields, rest[j])->Some_0),
            120,
        ).len() == 0 by {
            assert(rest[j] == keys[j + 1]);
        }
        lemma_no_task(fields, rest);
    }
}

/// The task of an event: what the user has set, else what a prompt says, else what the turn
/// that is complete was asked. A heartbeat and every other event leave it open.
pub proof fn lemma_task(
    chosen: Option<Seq<char>>,
    event: Seq<char>,
    state: Seq<char>,
    fields: Seq<(Seq<char>, Tree)>,
)
    ensures
        ({
            let task = task_of(chosen, event, state, fields);
            let own = compact::compacted(text::or_empty(chosen), 120);
            let asked = task_from(fields, seq!["input_messages"@, "input-messages"@]);
            let prompted = task_from(
                fields,
                seq!["prompt"@, "input"@, "input_messages"@, "input-messages"@],
            );
            &&& own.len() > 0 ==> task == own
            &&& own.len() == 0 && state == "running"@ && !activity(event) ==> task == prompted
            &&& own.len() == 0 && state != "running"@ && normalized(event)
                == "agent-turn-complete"@ ==> task == asked
            &&& own.len() == 0 && state != "running"@ && normalized(event)
                != "agent-turn-complete"@ ==> task == Seq::<char>::empty()
            &&& own.len() == 0 && activity(event) ==> task == Seq::<char>::empty()
        }),
{
    reveal_strlit("posttooluse");
    reveal_strlit("post-tool-use");
    reveal_strlit("agent-turn-complete");
    assert("posttooluse"@.len() < "post-tool-use"@.len() < "agent-turn-complete"@.len());
}

/// The message of an event: the payload's own words on one line of at most 2000 characters,
/// else those of the transcript that the payload names. A heartbeat has none.
pub proof fn lemma_message(
    event: Seq<char>,
    fields: Seq<(Seq<char>, Tree)>,
    explicit_event: Option<Seq<char>>,
    from_transcript: Seq<char>,
)
    ensures
        ({
            let own = string_field_of(
                fields,
                seq!["last-assistant-message"@, "last_assistant_message"@, "lastAssistantMessage"@],
            );
            let transcript = string_field_of(fields, seq!["transcript_path"@, "transcript-path"@]);
            let message = message_of(event, fields, from_transcript);
            &&& activity(event) ==> message == Seq::<char>::empty()
            &&& !activity(event) && own is Some && own->Some_0.len() > 0 ==> message
                == compact::compacted(own->Some_0, 2000)
            &&& !activity(event) && (own is None || own->Some_0.len() == 0) ==> message == if transcript is Some {
                from_transcript
            } else {
                Seq::empty()
            }
            &&& (state_after(event_name_of(fields, explicit_event), fields) is Some && !activity(
                event_name_of(fields, explicit_event),
            ) && own is None) ==> transcript_needed(fields, explicit_event) == transcript
        }),
{
}

/// An event is recorded if it tells a state. It tells where its session runs, under the name
/// of the agent in lower case, and each of its parts is where the payload has it.
pub proof fn lemma_event_parts(
    provider: Seq<char>,
    fields: Seq<(Seq<char>, Tree)>,
    explicit_event: Option<Seq<char>>,
    context: HookContextView,
    fallback: Seq<char>,
    from_transcript: Seq<char>,
    event_id: Seq<char>,
    updated_at: Seq<char>,
)
    ensures
        ({
            let named = string_field_of(
                fields,
                seq!["hook_event_name"@, "hookEventName"@, "type"@],
            );
            let name = match explicit_event {
                Some(name) => name,
                None => match named {
                    Some(name) => name,
                    None => "unknown"@,
                },
            };
            let session = string_field_of(
                fields,
                seq!["session_id"@, "session-id"@, "thread_id"@, "thread-id"@],
            );
            let cwd = string_field_of(fields, seq!["cwd"@]);
            match event_of(
                provider,
                fields,
                explicit_event,
                context,
                fallback,
                from_transcript,
                event_id,
                updated_at,
            ) {
                None => state_after(name, fields) is None,
                Some(event) => {
                    &&& state_after(name, fields) == Some(event.state)
                    &&& event.schema_version == 1
                    &&& event.event == name
                    &&& event.event_id == event_id
                    &&& event.updated_at == updated_at
                    &&& event.provider == text::lower(provider)
                    &&& session matches Some(id) ==> event.session_id == id
                    &&& session is None ==> event.session_id == fallback
                    &&& event.run_id == event.provider + "-"@ + event.session_id
                    &&& event.host == context.host
                    &&& event.tmux == context.tmux
                    &&& cwd matches Some(directory) ==> event.cwd == directory
                    &&& cwd is None ==> event.cwd == match context.current_dir {
                        Some(directory) => directory,
                        None => "."@,
                    }
                    &&& event.project == match paths::last_name(event.cwd) {
                        Some(last) => if last.len() > 0 {
                            last
                        } else {
                            event.cwd
                        },
                        None => event.cwd,
                    }
                    &&& event.task == task_of(context.task, name, event.state, fields)
                    &&& event.message == message_of(name, fields, from_transcript)
                },
            }
        }),
{
}

/// A session without a name of its own is the same for every hook of one agent in one
/// directory and pane: the case of the agent's name does not matter.
pub proof fn lemma_session_source(
    provider: Seq<char>,
    other: Seq<char>,
    cwd: Seq<char>,
    pane: Option<Seq<char>>,
)
    requires
        text::lower(provider) == text::lower(other),
    ensures
        session_source(provider, cwd, pane) == session_source(other, cwd, pane),
        pane matches Some(name) ==> session_source(provider, cwd, pane) == session_source(
            provider,
            cwd,
            None,
        ) + name,
        session_source(provider, cwd, None) == text::lower(provider) + "|"@ + cwd + "|"@,
{
    let bare = text::lower(provider) + "|"@ + cwd + "|"@;
    assert(bare + Seq::empty() =~= bare);
}

/// A pane is shown by what tmux prints for it, without white space around it, and by itself
/// where tmux prints nothing; outside of tmux there is none.
pub proof fn lemma_pane_name(pane: Seq<char>, printed: Seq<char>)
    ensures
        target_of(None, Some(printed)) == Seq::<char>::empty(),
        target_of(None, None) == Seq::<char>::empty(),
        target_of(Some(pane), None) == pane,
        split::trim(printed).len() == 0 ==> target_of(Some(pane), Some(printed)) == pane,
        split::trim(printed).len() > 0 ==> target_of(Some(pane), Some(printed)) == split::trim(
            printed,
        ),
{
}

/// The message of a transcript is that of the last of its lines that is a record with words of
/// the assistant, whatever the other lines hold.
pub proof fn lemma_transcript_message(tail: Seq<char>, i: int, record: Tree)
    requires
        0 <= i < split::lines(tail).len(),
        json::parsed(split::lines(tail)[i]) == Some(record),
        assistant_words(record) is Some,
        forall|j: int|
            i < j < split::lines(tail).len() ==> (json::parsed(
                #[trigger] split::lines(tail)[j],
            ) matches Some(later) ==> assistant_words(later) is None),
    ensures
        transcript_words(Some(tail)) == compact::compacted(assistant_words(record)->Some_0, 2000),
{
    let records = records_in(split::lines(tail));
    assert(records[i] == Some(record));
    assert forall|j: int| i < j < records.len() && #[trigger] records[j] is Some implies assistant_words(
        records[j]->Some_0,
    ) is None by {
        assert(records[j] == json::parsed(split::lines(tail)[j]));
    }
    lemma_last_speaker(records, i);
}

/// The log of a hook that failed tells when, whose it was and what went wrong.
pub proof fn lemma_failure(now: Seq<char>, provider: Seq<char>, problem: Seq<char>)
    ensures
        failure_text(now, provider, problem) == now + (" "@ + provider + (": "@ + problem)),
{
    assert(failure_text(now, provider, problem) =~= now + (" "@ + provider + (": "@ + problem)));
}

} // verus!
