//! The dashboard in the terminal: what is fetched, and the table that shows it.
use vstd::prelude::*;

use crate::compact;
use crate::compact::compact_text;
use crate::model::{RunRecord, RunView, Snapshot, SnapshotView};
use crate::number;
use crate::number::decimal_text;
use crate::split;
use crate::split::{joined_texts, split_lines, trimmed};
use crate::table;
use crate::table::Table;
use crate::text;
use crate::text::{push_repeated, same, to_chars, to_text, to_upper};
use crate::time;
use crate::time::{now, parse_time, seconds_since, utc_now, Timestamp};

verus! {

// ---------------------------------------------------------------------------
// Fetching
// ---------------------------------------------------------------------------

/// The alias stands for the machine itself, which is read without a connection.
pub open spec fn is_local(host: Seq<char>) -> bool {
    host == "local"@ || host == "localhost"@ || host == "127.0.0.1"@ || host == "::1"@
}

/// Whether the alias stands for the machine itself.
pub fn is_local_host(host: &str) -> (r: bool)
    ensures
        r == is_local(host@),
{
    same(host, "local") || same(host, "localhost") || same(host, "127.0.0.1") || same(host, "::1")
}

/// The arguments for `ssh` that make a devbox print its snapshot.
pub open spec fn ssh_words(host: Seq<char>, timeout_seconds: nat, event_limit: nat) -> Seq<
    Seq<char>,
> {
    seq![
        "-o"@,
        "BatchMode=yes"@,
        "-o"@,
        "ConnectTimeout="@ + number::decimal(
            if timeout_seconds > 1 {
                timeout_seconds
            } else {
                1
            },
        ),
        host,
        "~/.local/bin/llm-watch snapshot --events "@ + number::decimal(event_limit),
    ]
}

/// How a host is read.
pub enum Access {
    /// From the machine's own state.
    Local,
    /// By `ssh` with these arguments.
    Ssh(Vec<String>),
}

/// How to read a host. Only another machine is ever connected to.
pub fn access(host: &str, timeout_seconds: u64, event_limit: usize) -> (r: Access)
    ensures
        match r {
            Access::Local => is_local(host@),
            Access::Ssh(arguments) => !is_local(host@) && split::texts(arguments@) == ssh_words(
                host@,
                timeout_seconds as nat,
                event_limit as nat,
            ),
        },
{
    if is_local_host(host) {
        return Access::Local;
    }
    let seconds: u64 = if timeout_seconds > 1 {
        timeout_seconds
    } else {
        1
    };
    let mut connect = "ConnectTimeout=".to_owned();
    connect.append(decimal_text(seconds as u128).as_str());
    let mut command = "~/.local/bin/llm-watch snapshot --events ".to_owned();
    command.append(decimal_text(event_limit as u128).as_str());
    let arguments = vec![
        "-o".to_owned(),
        "BatchMode=yes".to_owned(),
        "-o".to_owned(),
        connect,
        host.to_owned(),
        command,
    ];
    assert(split::texts(arguments@) =~= ssh_words(
        host@,
        timeout_seconds as nat,
        event_limit as nat,
    ));
    Access::Ssh(arguments)
}

/// The last line that is not blank.
pub open spec fn last_line(lines: Seq<Seq<char>>) -> Option<Seq<char>>
    decreases lines.len(),
{
    if lines.len() == 0 {
        None
    } else if split::trim(lines.last()).len() > 0 {
        Some(lines.last())
    } else {
        last_line(lines.drop_last())
    }
}

/// What `ssh` complained about.
pub open spec fn complaint(stderr: Seq<char>) -> Seq<char> {
    match last_line(split::lines(stderr)) {
        Some(line) => line,
        None => "SSH command failed"@,
    }
}

pub fn ssh_complaint(stderr: &str) -> (r: String)
    ensures
        r@ == complaint(stderr@),
{
    let chars = to_chars(stderr);
    let lines = split_lines(chars.as_slice());
    let ghost every = split::lines(stderr@);
    let mut n: usize = lines.len();
    assert(every.take(n as int) =~= every);
    while n > 0
        invariant
            n <= lines@.len(),
            every == split::lines(stderr@),
            every == split::views(lines@),
            last_line(every) == last_line(every.take(n as int)),
        decreases n,
    {
        assert(every.take(n as int).drop_last() =~= every.take(n - 1));
        assert(every.take(n as int).last() == lines@[n - 1]@);
        if trimmed(lines[n - 1]).len() > 0 {
            return to_text(lines[n - 1]);
        }
        n -= 1;
    }
    "SSH command failed".to_owned()
}

/// The lines of what a devbox printed.
pub fn output_lines(output: &str) -> (r: Vec<String>)
    ensures
        split::texts(r@) == split::lines(output@),
{
    let chars = to_chars(output);
    let lines = split_lines(chars.as_slice());
    let ghost every = split::lines(output@);
    let mut out: Vec<String> = Vec::new();
    let mut i: usize = 0;
    while i < lines.len()
        invariant
            i <= lines@.len(),
            every == split::views(lines@),
            split::texts(out@) == every.take(i as int),
        decreases lines@.len() - i,
    {
        let ghost earlier = out@;
        out.push(to_text(lines[i]));
        i += 1;
        assert(split::texts(out@) =~= split::texts(earlier).push(every[i - 1]));
        assert(every.take(i as int) =~= every.take(i - 1).push(every[i - 1]));
    }
    assert(every.take(i as int) =~= every);
    out
}

/// The last of the lines that is a snapshot, where `decoded` tells for each line what it
/// says.
pub open spec fn last_snapshot(decoded: Seq<Option<Snapshot>>) -> Option<SnapshotView>
    decreases decoded.len(),
{
    if decoded.len() == 0 {
        None
    } else {
        match decoded.last() {
            Some(snapshot) => Some(snapshot.deep_view()),
            None => last_snapshot(decoded.drop_last()),
        }
    }
}

/// The snapshot in what a devbox printed. A banner may come before it. `decoded` tells for
/// each line of the output which snapshot it is, if it is one.
pub fn parse_snapshot_output(decoded: Vec<Option<Snapshot>>) -> (r: Result<Snapshot, String>)
    ensures
        match r {
            Ok(snapshot) => last_snapshot(decoded@) == Some(snapshot.deep_view()),
            Err(error) => last_snapshot(decoded@) is None && error@
                == "invalid snapshot response"@,
        },
{
    let mut rest = decoded;
    while rest.len() > 0
        invariant
            last_snapshot(decoded@) == last_snapshot(rest@),
        decreases rest@.len(),
    {
        let ghost before = rest@;
        if let Some(last) = rest.pop() {
            assert(rest@ =~= before.drop_last());
            if let Some(snapshot) = last {
                return Ok(snapshot);
            }
        }
    }
    Err("invalid snapshot response".to_owned())
}

/// What came of reading one host over `ssh`.
pub enum Outcome {
    /// `ssh` ran well; for each line that it printed, the snapshot it is, if it is one.
    Printed(Vec<Option<Snapshot>>),
    /// `ssh` failed; what it wrote to its error output.
    Failed(String),
    /// `ssh` took too long.
    TimedOut,
    /// `ssh` could not be run, and why.
    Broken(String),
}

/// The snapshot of a host, or what to say in its place.
pub fn fetched(outcome: Outcome) -> (r: Result<Snapshot, String>)
    ensures
        match outcome {
            Outcome::Printed(decoded) => match r {
                Ok(snapshot) => last_snapshot(decoded@) == Some(snapshot.deep_view()),
                Err(error) => last_snapshot(decoded@) is None && error@
                    == "invalid snapshot response"@,
            },
            Outcome::Failed(stderr) => r matches Err(error) && error@ == complaint(stderr@),
            Outcome::TimedOut => r matches Err(error) && error@ == "SSH timed out"@,
            Outcome::Broken(reason) => r matches Err(error) && error@ == reason@,
        },
{
    match outcome {
        Outcome::Printed(decoded) => parse_snapshot_output(decoded),
        Outcome::Failed(stderr) => Err(ssh_complaint(stderr.as_str())),
        Outcome::TimedOut => Err("SSH timed out".to_owned()),
        Outcome::Broken(reason) => Err(reason),
    }
}

/// The snapshots among the results. Where a host comes twice, the later one counts.
pub open spec fn snapshots_in(results: Seq<(String, Result<Snapshot, String>)>) -> Map<
    Seq<char>,
    SnapshotView,
>
    decreases results.len(),
{
    if results.len() == 0 {
        Map::empty()
    } else {
        let earlier = snapshots_in(results.drop_last());
        match results.last().1 {
            Ok(snapshot) => earlier.insert(results.last().0@, snapshot.deep_view()),
            Err(_) => earlier,
        }
    }
}

/// The errors among the results. Where a host comes twice, the later one counts.
pub open spec fn errors_in(results: Seq<(String, Result<Snapshot, String>)>) -> Map<
    Seq<char>,
    Seq<char>,
>
    decreases results.len(),
{
    if results.len() == 0 {
        Map::empty()
    } else {
        let earlier = errors_in(results.drop_last());
        match results.last().1 {
            Ok(_) => earlier,
            Err(error) => earlier.insert(results.last().0@, error@),
        }
    }
}

/// Sorts the results of a poll: snapshots here, errors there.
pub fn collect(results: Vec<(String, Result<Snapshot, String>)>) -> (r: (
    Table<Snapshot>,
    Table<String>,
))
    ensures
        r.0@ == snapshots_in(results@),
        r.1@ == errors_in(results@),
    decreases results@.len(),
{
    let ghost all = results@;
    let mut rest = results;
    match rest.pop() {
        None => (Table::new(), Table::new()),
        Some((host, result)) => {
            assert(rest@ =~= all.drop_last());
            let (mut snapshots, mut errors) = collect(rest);
            match result {
                Ok(snapshot) => snapshots.insert(host, snapshot),
                Err(error) => errors.insert(host, error),
            }
            (snapshots, errors)
        },
    }
}

// ---------------------------------------------------------------------------
// The table
// ---------------------------------------------------------------------------

pub const TASK_WIDTH: usize = 54;

pub open spec fn dash_if_empty(s: Seq<char>) -> Seq<char> {
    if s.len() == 0 {
        "-"@
    } else {
        s
    }
}

/// A time span in one unit.
pub open spec fn span_text(seconds: int) -> Seq<char> {
    if seconds < 60 {
        number::decimal(seconds as nat) + "s"@
    } else if seconds < 3_600 {
        number::decimal((seconds / 60) as nat) + "m"@
    } else if seconds < 86_400 {
        number::decimal((seconds / 3_600) as nat) + "h"@
    } else {
        number::decimal((seconds / 86_400) as nat) + "d"@
    }
}

/// How long ago a time was; a time yet to come is just now.
pub open spec fn age_text(value: Seq<char>, now: Timestamp) -> Seq<char> {
    match time::moment(value) {
        None => "?"@,
        Some(at) => {
            let seconds = time::seconds_between(now, at);
            span_text(
                if seconds > 0 {
                    seconds
                } else {
                    0
                },
            )
        },
    }
}

pub open spec fn headers() -> Seq<Seq<char>> {
    seq!["HOST"@, "TMUX"@, "TOOL"@, "PROJECT"@, "TASK"@, "STATE"@, "AGE"@]
}

/// The row of a session.
pub open spec fn run_row(alias: Seq<char>, run: RunView, now: Timestamp) -> Seq<Seq<char>> {
    seq![
        alias,
        dash_if_empty(run.tmux),
        dash_if_empty(run.provider),
        dash_if_empty(run.project),
        compact::compacted(dash_if_empty(run.task), TASK_WIDTH as nat),
        text::upper(run.state),
        age_text(run.updated_at, now),
    ]
}

/// The row of a host that could not be read.
pub open spec fn error_row(alias: Seq<char>, message: Seq<char>) -> Seq<Seq<char>> {
    seq![
        alias,
        "-"@,
        "-"@,
        "-"@,
        compact::compacted(message, TASK_WIDTH as nat),
        "UNREACHABLE"@,
        "-"@,
    ]
}

/// A session that is over is shown on request only.
pub open spec fn is_shown(run: RunView, show_stopped: bool) -> bool {
    run.state != "stopped"@ || show_stopped
}

/// The rows of a host's sessions.
pub open spec fn run_rows(
    alias: Seq<char>,
    runs: Seq<RunView>,
    show_stopped: bool,
    now: Timestamp,
) -> Seq<Seq<Seq<char>>>
    decreases runs.len(),
{
    if runs.len() == 0 {
        Seq::empty()
    } else {
        let earlier = run_rows(alias, runs.drop_last(), show_stopped, now);
        if is_shown(runs.last(), show_stopped) {
            earlier.push(run_row(alias, runs.last(), now))
        } else {
            earlier
        }
    }
}

/// The rows of the hosts' sessions, host by host.
pub open spec fn session_rows(
    hosts: Seq<Seq<char>>,
    snapshots: Map<Seq<char>, SnapshotView>,
    show_stopped: bool,
    now: Timestamp,
) -> Seq<Seq<Seq<char>>>
    decreases hosts.len(),
{
    if hosts.len() == 0 {
        Seq::empty()
    } else {
        session_rows(hosts.drop_last(), snapshots, show_stopped, now) + run_rows(
            hosts.last(),
            snapshots[hosts.last()].runs,
            show_stopped,
            now,
        )
    }
}

/// The rows of the hosts that could not be read.
pub open spec fn error_rows(hosts: Seq<Seq<char>>, errors: Map<Seq<char>, Seq<char>>) -> Seq<
    Seq<Seq<char>>,
> {
    Seq::new(hosts.len(), |i: int| error_row(hosts[i], errors[hosts[i]]))
}

/// All rows: the sessions, host by host in ascending order, then the errors likewise.
pub open spec fn table_rows(
    snapshots: Map<Seq<char>, SnapshotView>,
    errors: Map<Seq<char>, Seq<char>>,
    show_stopped: bool,
    now: Timestamp,
) -> Seq<Seq<Seq<char>>> {
    session_rows(table::sorted_keys(snapshots.dom()), snapshots, show_stopped, now) + error_rows(
        table::sorted_keys(errors.dom()),
        errors,
    )
}

/// How wide a column must be for its header and its cells.
pub open spec fn column_width(rows: Seq<Seq<Seq<char>>>, column: int) -> nat
    decreases rows.len(),
{
    if rows.len() == 0 {
        headers()[column].len()
    } else {
        let earlier = column_width(rows.drop_last(), column);
        let here = rows.last()[column].len();
        if here > earlier {
            here
        } else {
            earlier
        }
    }
}

pub open spec fn widths_of(rows: Seq<Seq<Seq<char>>>) -> Seq<nat> {
    Seq::new(7, |i: int| column_width(rows, i))
}

/// A cell, filled up with spaces.
pub open spec fn padded(cell: Seq<char>, width: nat) -> Seq<char> {
    if cell.len() < width {
        cell + text::repeated(' ', (width - cell.len()) as nat)
    } else {
        cell
    }
}

pub open spec fn padded_cells(cells: Seq<Seq<char>>, widths: Seq<nat>) -> Seq<Seq<char>> {
    Seq::new(cells.len(), |i: int| padded(cells[i], widths[i]))
}

/// A row as a line.
pub open spec fn row_line(cells: Seq<Seq<char>>, widths: Seq<nat>) -> Seq<char> {
    split::join(padded_cells(cells, widths), "  "@)
}

/// The line under the headers.
pub open spec fn rule_line(widths: Seq<nat>) -> Seq<char> {
    split::join(Seq::new(widths.len(), |i: int| text::repeated('-', widths[i])), "  "@)
}

/// The lines of the table.
pub open spec fn table_lines(rows: Seq<Seq<Seq<char>>>) -> Seq<Seq<char>> {
    let widths = widths_of(rows);
    seq![row_line(headers(), widths), rule_line(widths)] + Seq::new(
        rows.len(),
        |i: int| row_line(rows[i], widths),
    )
}

/// The table, or a sentence where there is nothing to show.
pub open spec fn table_text(rows: Seq<Seq<Seq<char>>>) -> Seq<char> {
    if rows.len() == 0 {
        "No active LLM sessions found."@
    } else {
        split::join(table_lines(rows), "\n"@)
    }
}

pub open spec fn cells_of(rows: Seq<Vec<String>>) -> Seq<Seq<Seq<char>>> {
    Seq::new(rows.len(), |i: int| split::texts(rows[i]@))
}

pub fn or_dash(value: &str) -> (r: String)
    ensures
        r@ == dash_if_empty(value@),
{
    if value.is_empty() {
        "-".to_owned()
    } else {
        value.to_owned()
    }
}

fn span(seconds: u64) -> (r: String)
    ensures
        r@ == span_text(seconds as int),
{
    let (count, unit): (u64, &str) = if seconds < 60 {
        (seconds, "s")
    } else if seconds < 3_600 {
        (seconds / 60, "m")
    } else if seconds < 86_400 {
        (seconds / 3_600, "h")
    } else {
        (seconds / 86_400, "d")
    };
    let mut out = decimal_text(count as u128);
    out.append(unit);
    out
}

/// How long ago a time was.
pub fn age(value: &str, now: Timestamp) -> (r: String)
    requires
        now.valid(),
    ensures
        r@ == age_text(value@, now),
{
    match parse_time(value) {
        None => "?".to_owned(),
        Some(at) => {
            let seconds: i64 = seconds_since(now, at);
            span(
                if seconds > 0 {
                    seconds as u64
                } else {
                    0
                },
            )
        },
    }
}

fn row_of_run(alias: &str, run: &RunRecord, now: Timestamp) -> (r: Vec<String>)
    requires
        now.valid(),
    ensures
        split::texts(r@) == run_row(alias@, run.deep_view(), now),
{
    let row = vec![
        alias.to_owned(),
        or_dash(run.tmux.as_str()),
        or_dash(run.provider.as_str()),
        or_dash(run.project.as_str()),
        compact_text(or_dash(run.task.as_str()).as_str(), TASK_WIDTH),
        to_upper(run.state.as_str()),
        age(run.updated_at.as_str(), now),
    ];
    assert(split::texts(row@) =~= run_row(alias@, run.deep_view(), now));
    row
}

fn row_of_error(alias: &str, message: &str) -> (r: Vec<String>)
    ensures
        split::texts(r@) == error_row(alias@, message@),
{
    let row = vec![
        alias.to_owned(),
        "-".to_owned(),
        "-".to_owned(),
        "-".to_owned(),
        compact_text(message, TASK_WIDTH),
        "UNREACHABLE".to_owned(),
        "-".to_owned(),
    ];
    assert(split::texts(row@) =~= error_row(alias@, message@));
    row
}

fn push_run_rows(
    rows: &mut Vec<Vec<String>>,
    alias: &str,
    runs: &Vec<RunRecord>,
    show_stopped: bool,
    now: Timestamp,
)
    requires
        now.valid(),
    ensures
        cells_of(final(rows)@) == cells_of(old(rows)@) + run_rows(
            alias@,
            runs.deep_view(),
            show_stopped,
            now,
        ),
{
    let ghost first = cells_of(rows@);
    let ghost all = runs.deep_view();
    let mut i: usize = 0;
    assert(all.take(0) =~= Seq::empty());
    assert(first + run_rows(alias@, all.take(0), show_stopped, now) =~= first);
    while i < runs.len()
        invariant
            now.valid(),
            i <= runs@.len(),
            all == runs.deep_view(),
            cells_of(rows@) == first + run_rows(alias@, all.take(i as int), show_stopped, now),
        decreases runs@.len() - i,
    {
        let run = &runs[i];
        proof {
            assert(all.take(i + 1).drop_last() =~= all.take(i as int));
            assert(all.take(i + 1).last() == run.deep_view());
        }
        if !same(run.state.as_str(), "stopped") || show_stopped {
            let ghost earlier = cells_of(rows@);
            let row = row_of_run(alias, run, now);
            let ghost cells = split::texts(row@);
            rows.push(row);
            assert(cells_of(rows@) =~= earlier.push(cells));
            assert(cells_of(rows@) =~= first + run_rows(
                alias@,
                all.take(i + 1),
                show_stopped,
                now,
            ));
        }
        i += 1;
    }
    assert(all.take(i as int) =~= all);
}

fn collect_rows(
    snapshots: &Table<Snapshot>,
    errors: &Table<String>,
    show_stopped: bool,
    now: Timestamp,
) -> (rows: Vec<Vec<String>>)
    requires
        now.valid(),
    ensures
        cells_of(rows@) == table_rows(snapshots@, errors@, show_stopped, now),
{
    let mut rows: Vec<Vec<String>> = Vec::new();
    let count: usize = snapshots.len();
    let ghost hosts = table::sorted_keys(snapshots@.dom());
    let mut i: usize = 0;
    assert(hosts.take(0) =~= Seq::empty());
    assert(cells_of(rows@) =~= session_rows(hosts.take(0), snapshots@, show_stopped, now));
    while i < count
        invariant
            now.valid(),
            count == hosts.len(),
            hosts == table::sorted_keys(snapshots@.dom()),
            i <= count,
            cells_of(rows@) == session_rows(hosts.take(i as int), snapshots@, show_stopped, now),
        decreases count - i,
    {
        let alias = snapshots.key_at(i);
        let snapshot = snapshots.value_at(i);
        proof {
            assert(hosts.take(i + 1).drop_last() =~= hosts.take(i as int));
            assert(hosts.take(i + 1).last() == alias@);
        }
        push_run_rows(&mut rows, alias.as_str(), &snapshot.runs, show_stopped, now);
        i += 1;
    }
    assert(hosts.take(i as int) =~= hosts);
    let ghost sessions = cells_of(rows@);
    let count: usize = errors.len();
    let ghost failed = table::sorted_keys(errors@.dom());
    let ghost all = error_rows(failed, errors@);
    i = 0;
    assert(sessions + all.take(0) =~= sessions);
    while i < count
        invariant
            count == failed.len(),
            failed == table::sorted_keys(errors@.dom()),
            all == error_rows(failed, errors@),
            i <= count,
            cells_of(rows@) == sessions + all.take(i as int),
        decreases count - i,
    {
        let ghost earlier = cells_of(rows@);
        let row = row_of_error(errors.key_at(i).as_str(), errors.value_at(i).as_str());
        let ghost cells = split::texts(row@);
        rows.push(row);
        i += 1;
        assert(cells_of(rows@) =~= earlier.push(cells));
        assert(all.take(i as int) =~= all.take(i - 1).push(all[i - 1]));
        assert(cells_of(rows@) =~= sessions + all.take(i as int));
    }
    assert(all.take(i as int) =~= all);
    rows
}

fn header_texts() -> (r: Vec<String>)
    ensures
        split::texts(r@) == headers(),
{
    let row = vec![
        "HOST".to_owned(),
        "TMUX".to_owned(),
        "TOOL".to_owned(),
        "PROJECT".to_owned(),
        "TASK".to_owned(),
        "STATE".to_owned(),
        "AGE".to_owned(),
    ];
    assert(split::texts(row@) =~= headers());
    row
}

pub open spec fn as_nats(widths: Seq<usize>) -> Seq<nat> {
    Seq::new(widths.len(), |i: int| widths[i] as nat)
}

fn char_count(s: &str) -> (n: usize)
    ensures
        n == s@.len(),
{
    let chars = to_chars(s);
    chars.len()
}

/// Rows of seven cells.
spec fn full_rows(rows: Seq<Vec<String>>) -> bool {
    forall|i: int| 0 <= i < rows.len() ==> (#[trigger] rows[i])@.len() == 7
}

fn measure(rows: &Vec<Vec<String>>, column: usize) -> (width: usize)
    requires
        column < 7,
        full_rows(rows@),
    ensures
        width == column_width(cells_of(rows@), column as int),
{
    let headers = header_texts();
    let ghost all = cells_of(rows@);
    assert(split::texts(headers@).len() == 7);
    assert(split::texts(headers@)[column as int] == headers@[column as int]@);
    let mut width: usize = char_count(headers[column].as_str());
    let mut i: usize = 0;
    assert(all.take(0) =~= Seq::empty());
    while i < rows.len()
        invariant
            column < 7,
            full_rows(rows@),
            i <= rows@.len(),
            all == cells_of(rows@),
            width == column_width(all.take(i as int), column as int),
        decreases rows@.len() - i,
    {
        proof {
            assert(all.take(i + 1).drop_last() =~= all.take(i as int));
            assert(all.take(i + 1).last() == split::texts(rows@[i as int]@));
        }
        let here: usize = char_count(rows[i][column].as_str());
        if here > width {
            width = here;
        }
        i += 1;
    }
    assert(all.take(i as int) =~= all);
    width
}

fn measure_all(rows: &Vec<Vec<String>>) -> (widths: Vec<usize>)
    requires
        full_rows(rows@),
    ensures
        as_nats(widths@) == widths_of(cells_of(rows@)),
{
    let ghost all = widths_of(cells_of(rows@));
    let mut widths: Vec<usize> = Vec::new();
    let mut i: usize = 0;
    while i < 7
        invariant
            full_rows(rows@),
            all == widths_of(cells_of(rows@)),
            i <= 7,
            widths@.len() == i,
            forall|j: int| 0 <= j < i ==> (#[trigger] widths@[j]) as nat == all[j],
        decreases 7 - i,
    {
        widths.push(measure(rows, i));
        i += 1;
    }
    assert(as_nats(widths@) =~= all);
    widths
}

fn pad(cell: &str, width: usize) -> (r: String)
    ensures
        r@ == padded(cell@, width as nat),
{
    let mut out = cell.to_owned();
    let count: usize = char_count(cell);
    if count < width {
        push_repeated(&mut out, ' ', width - count);
    }
    out
}

fn join_padded(values: &Vec<String>, widths: &Vec<usize>) -> (r: String)
    requires
        values@.len() == widths@.len(),
    ensures
        r@ == row_line(split::texts(values@), as_nats(widths@)),
{
    let ghost all = padded_cells(split::texts(values@), as_nats(widths@));
    let mut parts: Vec<String> = Vec::new();
    let mut i: usize = 0;
    while i < values.len()
        invariant
            values@.len() == widths@.len(),
            all == padded_cells(split::texts(values@), as_nats(widths@)),
            i <= values@.len(),
            parts@.len() == i,
            forall|j: int| 0 <= j < i ==> (#[trigger] parts@[j])@ == all[j],
        decreases values@.len() - i,
    {
        parts.push(pad(values[i].as_str(), widths[i]));
        i += 1;
    }
    assert(split::texts(parts@) =~= all);
    joined_texts(&parts, "  ")
}

fn rule(widths: &Vec<usize>) -> (r: String)
    ensures
        r@ == rule_line(as_nats(widths@)),
{
    let ghost all = Seq::new(
        as_nats(widths@).len(),
        |i: int| text::repeated('-', as_nats(widths@)[i]),
    );
    let mut parts: Vec<String> = Vec::new();
    let mut i: usize = 0;
    while i < widths.len()
        invariant
            i <= widths@.len(),
            parts@.len() == i,
            all.len() == widths@.len(),
            forall|j: int| 0 <= j < all.len() ==> #[trigger] all[j] == text::repeated(
                '-',
                widths@[j] as nat,
            ),
            forall|j: int| 0 <= j < i ==> (#[trigger] parts@[j])@ == all[j],
        decreases widths@.len() - i,
    {
        let mut dashes = String::new();
        push_repeated(&mut dashes, '-', widths[i]);
        assert(dashes@ =~= text::repeated('-', widths@[i as int] as nat));
        parts.push(dashes);
        i += 1;
    }
    assert(split::texts(parts@) =~= all);
    joined_texts(&parts, "  ")
}

fn layout(rows: &Vec<Vec<String>>) -> (r: String)
    requires
        full_rows(rows@),
    ensures
        r@ == table_text(cells_of(rows@)),
{
    if rows.len() == 0 {
        return "No active LLM sessions found.".to_owned();
    }
    let widths = measure_all(rows);
    let ghost wide = as_nats(widths@);
    let ghost cells = cells_of(rows@);
    assert(wide.len() == 7);
    assert(widths@.len() == 7);
    let headers = header_texts();
    assert(split::texts(headers@).len() == 7);
    let mut lines: Vec<String> = Vec::new();
    lines.push(join_padded(&headers, &widths));
    lines.push(rule(&widths));
    let ghost every = table_lines(cells);
    let mut i: usize = 0;
    while i < rows.len()
        invariant
            full_rows(rows@),
            widths@.len() == 7,
            wide == as_nats(widths@),
            cells == cells_of(rows@),
            wide == widths_of(cells),
            every == table_lines(cells),
            i <= rows@.len(),
            lines@.len() == i + 2,
            forall|j: int| 0 <= j < i + 2 ==> (#[trigger] lines@[j])@ == every[j],
        decreases rows@.len() - i,
    {
        let line = join_padded(&rows[i], &widths);
        assert(line@ == row_line(cells[i as int], wide));
        lines.push(line);
        i += 1;
    }
    assert(split::texts(lines@) =~= every);
    joined_texts(&lines, "\n")
}

/// The table of sessions as it looks at a moment.
pub fn render_table_at(
    snapshots: &Table<Snapshot>,
    errors: &Table<String>,
    show_stopped: bool,
    now: Timestamp,
) -> (r: String)
    requires
        now.valid(),
    ensures
        r@ == table_text(table_rows(snapshots@, errors@, show_stopped, now)),
{
    let rows = collect_rows(snapshots, errors, show_stopped, now);
    proof {
        let cells = cells_of(rows@);
        assert forall|i: int| 0 <= i < rows@.len() implies (#[trigger] rows@[i])@.len() == 7 by {
            lemma_rows_are_full(snapshots@, errors@, show_stopped, now, i);
            assert(cells[i] == split::texts(rows@[i]@));
        }
    }
    layout(&rows)
}

/// The table of sessions.
pub fn render_table(
    snapshots: &Table<Snapshot>,
    errors: &Table<String>,
    show_stopped: bool,
) -> (r: String)
    ensures
        exists|at: Timestamp|
            #![trigger at.valid()]
            at.valid() && at.seconds >= 0 && r@ == table_text(
                table_rows(snapshots@, errors@, show_stopped, at),
            ),
{
    let at = now();
    render_table_at(snapshots, errors, show_stopped, at)
}

/// The line under the table.
pub open spec fn status_text(now: Seq<char>) -> Seq<char> {
    "Updated "@ + now + " · Ctrl+C to stop"@
}

pub fn status_line_at(now: &str) -> (r: String)
    ensures
        r@ == status_text(now@),
{
    let mut out = "Updated ".to_owned();
    out.append(now);
    out.append(" · Ctrl+C to stop");
    out
}

/// The line under the table.
pub fn status_line() -> (r: String)
    ensures
        exists|at: Timestamp|
            #![trigger at.valid()]
            at.valid() && at.seconds >= 0 && r@ == status_text(
                time::rfc3339(at.seconds, at.nanos),
            ),
{
    let now = utc_now();
    status_line_at(now.as_str())
}

// ---------------------------------------------------------------------------
// The shape of the table
// ---------------------------------------------------------------------------

/// The row belongs to one of the sessions that are to be shown.
spec fn is_run_row(
    alias: Seq<char>,
    runs: Seq<RunView>,
    show_stopped: bool,
    now: Timestamp,
    row: Seq<Seq<char>>,
) -> bool {
    exists|j: int|
        0 <= j < runs.len() && is_shown(#[trigger] runs[j], show_stopped) && row == run_row(
            alias,
            runs[j],
            now,
        )
}

proof fn lemma_run_rows(
    alias: Seq<char>,
    runs: Seq<RunView>,
    show_stopped: bool,
    now: Timestamp,
    k: int,
)
    requires
        0 <= k < run_rows(alias, runs, show_stopped, now).len(),
    ensures
        run_rows(alias, runs, show_stopped, now)[k].len() == 7,
        is_run_row(alias, runs, show_stopped, now, run_rows(alias, runs, show_stopped, now)[k]),
    decreases runs.len(),
{
    let fewer = runs.drop_last();
    let earlier = run_rows(alias, fewer, show_stopped, now);
    let row = run_rows(alias, runs, show_stopped, now)[k];
    if k < earlier.len() {
        lemma_run_rows(alias, fewer, show_stopped, now, k);
        assert(row == earlier[k]);
        let j = choose|j: int|
            0 <= j < fewer.len() && is_shown(#[trigger] fewer[j], show_stopped) && row == run_row(
                alias,
                fewer[j],
                now,
            );
        assert(runs[j] == fewer[j]);
    } else {
        assert(row == run_row(alias, runs[runs.len() - 1], now));
    }
}

/// The row belongs to a session that is to be shown.
pub open spec fn is_session_row(
    snapshots: Map<Seq<char>, SnapshotView>,
    show_stopped: bool,
    now: Timestamp,
    row: Seq<Seq<char>>,
) -> bool {
    exists|host: Seq<char>, j: int|
        #![trigger snapshots[host].runs[j]]
        {
            &&& snapshots.dom().contains(host)
            &&& 0 <= j < snapshots[host].runs.len()
            &&& is_shown(snapshots[host].runs[j], show_stopped)
            &&& row == run_row(host, snapshots[host].runs[j], now)
        }
}

proof fn lemma_session_rows(
    hosts: Seq<Seq<char>>,
    snapshots: Map<Seq<char>, SnapshotView>,
    show_stopped: bool,
    now: Timestamp,
    k: int,
)
    requires
        0 <= k < session_rows(hosts, snapshots, show_stopped, now).len(),
    ensures
        session_rows(hosts, snapshots, show_stopped, now)[k].len() == 7,
        hosts.to_set().subset_of(snapshots.dom()) ==> is_session_row(
            snapshots,
            show_stopped,
            now,
            session_rows(hosts, snapshots, show_stopped, now)[k],
        ),
    decreases hosts.len(),
{
    let fewer = hosts.drop_last();
    let host = hosts.last();
    assert(fewer.push(host) =~= hosts);
    table::lemma_to_set_push(fewer, host);
    assert(hosts.to_set().contains(host));
    let runs = snapshots[host].runs;
    let earlier = session_rows(fewer, snapshots, show_stopped, now);
    let here = run_rows(host, runs, show_stopped, now);
    let row = session_rows(hosts, snapshots, show_stopped, now)[k];
    if k < earlier.len() {
        lemma_session_rows(fewer, snapshots, show_stopped, now, k);
        assert(row == earlier[k]);
    } else {
        lemma_run_rows(host, runs, show_stopped, now, k - earlier.len());
        assert(row == here[k - earlier.len()]);
        let j = choose|j: int|
            0 <= j < runs.len() && is_shown(#[trigger] runs[j], show_stopped) && row == run_row(
                host,
                runs[j],
                now,
            );
        assert(is_shown(snapshots[host].runs[j], show_stopped));
    }
}

/// Every row has seven cells.
pub proof fn lemma_rows_are_full(
    snapshots: Map<Seq<char>, SnapshotView>,
    errors: Map<Seq<char>, Seq<char>>,
    show_stopped: bool,
    now: Timestamp,
    k: int,
)
    requires
        0 <= k < table_rows(snapshots, errors, show_stopped, now).len(),
    ensures
        table_rows(snapshots, errors, show_stopped, now)[k].len() == 7,
{
    let hosts = table::sorted_keys(snapshots.dom());
    if k < session_rows(hosts, snapshots, show_stopped, now).len() {
        lemma_session_rows(hosts, snapshots, show_stopped, now, k);
    }
}

/// The rows of the sessions are those of sessions to be shown: without a request, no
/// session that is over has a row. The rows after them are those of the hosts that could
/// not be read.
pub proof fn lemma_stopped_rows_are_hidden(
    snapshots: Map<Seq<char>, SnapshotView>,
    errors: Map<Seq<char>, Seq<char>>,
    show_stopped: bool,
    now: Timestamp,
    k: int,
)
    requires
        snapshots.dom().finite(),
        0 <= k < table_rows(snapshots, errors, show_stopped, now).len(),
    ensures
        is_session_row(
            snapshots,
            show_stopped,
            now,
            table_rows(snapshots, errors, show_stopped, now)[k],
        ) || error_rows(table::sorted_keys(errors.dom()), errors).contains(
            table_rows(snapshots, errors, show_stopped, now)[k],
        ),
{
    let hosts = table::sorted_keys(snapshots.dom());
    table::lemma_sorted_keys_exist(snapshots.dom());
    let sessions = session_rows(hosts, snapshots, show_stopped, now);
    let failed = error_rows(table::sorted_keys(errors.dom()), errors);
    let all = table_rows(snapshots, errors, show_stopped, now);
    if k < sessions.len() {
        lemma_session_rows(hosts, snapshots, show_stopped, now, k);
        assert(all[k] == sessions[k]);
    } else {
        assert(all[k] == failed[k - sessions.len()]);
    }
}

proof fn lemma_column_fits(rows: Seq<Seq<Seq<char>>>, column: int, i: int)
    requires
        0 <= i < rows.len(),
    ensures
        rows[i][column].len() <= column_width(rows, column),
        headers()[column].len() <= column_width(rows, column),
    decreases rows.len(),
{
    let fewer = rows.drop_last();
    if i < fewer.len() {
        lemma_column_fits(fewer, column, i);
        assert(fewer[i] == rows[i]);
    } else if fewer.len() > 0 {
        lemma_column_fits(fewer, column, 0);
    }
}

/// The length of cells of these widths with a gap of two between them.
pub open spec fn total_width(widths: Seq<nat>) -> nat
    decreases widths.len(),
{
    if widths.len() == 0 {
        0
    } else if widths.len() == 1 {
        widths[0]
    } else {
        total_width(widths.drop_last()) + 2 + widths.last()
    }
}

proof fn lemma_joined_length(cells: Seq<Seq<char>>, widths: Seq<nat>)
    requires
        cells.len() == widths.len(),
        forall|i: int| 0 <= i < cells.len() ==> (#[trigger] cells[i]).len() == widths[i],
    ensures
        split::join(cells, "  "@).len() == total_width(widths),
    decreases cells.len(),
{
    reveal_strlit("  ");
    if cells.len() > 1 {
        let fewer = cells.drop_last();
        let narrower = widths.drop_last();
        assert forall|i: int| 0 <= i < fewer.len() implies (#[trigger] fewer[i]).len()
            == narrower[i] by {
            assert(fewer[i] == cells[i]);
        }
        lemma_joined_length(fewer, narrower);
    } else if cells.len() == 1 {
        assert(cells[0].len() == widths[0]);
        reveal_with_fuel(split::join, 2);
    }
}

/// The lines of the table are all of the same length, so that its columns stand straight.
pub proof fn lemma_lines_are_aligned(rows: Seq<Seq<Seq<char>>>, k: int)
    requires
        forall|i: int| 0 <= i < rows.len() ==> (#[trigger] rows[i]).len() == 7,
        rows.len() > 0,
        0 <= k < table_lines(rows).len(),
    ensures
        table_lines(rows)[k].len() == total_width(widths_of(rows)),
{
    let widths = widths_of(rows);
    if k == 1 {
        let cells = Seq::new(widths.len(), |i: int| text::repeated('-', widths[i]));
        lemma_joined_length(cells, widths);
    } else {
        let row = if k == 0 {
            headers()
        } else {
            rows[k - 2]
        };
        let cells = padded_cells(row, widths);
        assert forall|i: int| 0 <= i < cells.len() implies (#[trigger] cells[i]).len()
            == widths[i] by {
            lemma_column_fits(
                rows,
                i,
                if k == 0 {
                    0
                } else {
                    k - 2
                },
            );
        }
        lemma_joined_length(cells, widths);
    }
}

// ---------------------------------------------------------------------------
// What the table shows
// ---------------------------------------------------------------------------

/// The text, or a dash where it is empty.
pub open spec fn is_cell(cell: Seq<char>, value: Seq<char>) -> bool {
    if value.len() > 0 {
        cell == value
    } else {
        cell == "-"@
    }
}

/// The row tells of that session on that host.
pub open spec fn tells_of(
    row: Seq<Seq<char>>,
    host: Seq<char>,
    run: RunView,
    now: Timestamp,
) -> bool {
    &&& row.len() == 7
    &&& row[0] == host
    &&& is_cell(row[1], run.tmux)
    &&& is_cell(row[2], run.provider)
    &&& is_cell(row[3], run.project)
    &&& run.task.len() > 0 ==> row[4] == compact::compacted(run.task, 54)
    &&& run.task.len() == 0 ==> row[4] == compact::compacted("-"@, 54)
    &&& row[5] == text::upper(run.state)
    &&& row[6] == age_text(run.updated_at, now)
}

proof fn lemma_run_row_found(
    alias: Seq<char>,
    runs: Seq<RunView>,
    show_stopped: bool,
    now: Timestamp,
    j: int,
) -> (k: int)
    requires
        0 <= j < runs.len(),
        runs[j].state != "stopped"@ || show_stopped,
    ensures
        0 <= k < run_rows(alias, runs, show_stopped, now).len(),
        run_rows(alias, runs, show_stopped, now)[k] == run_row(alias, runs[j], now),
    decreases runs.len(),
{
    let fewer = runs.drop_last();
    let earlier = run_rows(alias, fewer, show_stopped, now);
    if j < fewer.len() {
        let k = lemma_run_row_found(alias, fewer, show_stopped, now, j);
        assert(run_rows(alias, runs, show_stopped, now)[k] == earlier[k]);
        k
    } else {
        earlier.len() as int
    }
}

proof fn lemma_session_row_found(
    hosts: Seq<Seq<char>>,
    snapshots: Map<Seq<char>, SnapshotView>,
    show_stopped: bool,
    now: Timestamp,
    h: int,
    j: int,
) -> (k: int)
    requires
        0 <= h < hosts.len(),
        0 <= j < snapshots[hosts[h]].runs.len(),
        snapshots[hosts[h]].runs[j].state != "stopped"@ || show_stopped,
    ensures
        0 <= k < session_rows(hosts, snapshots, show_stopped, now).len(),
        session_rows(hosts, snapshots, show_stopped, now)[k] == run_row(
            hosts[h],
            snapshots[hosts[h]].runs[j],
            now,
        ),
    decreases hosts.len(),
{
    let fewer = hosts.drop_last();
    let earlier = session_rows(fewer, snapshots, show_stopped, now);
    if h < fewer.len() {
        let k = lemma_session_row_found(fewer, snapshots, show_stopped, now, h, j);
        assert(session_rows(hosts, snapshots, show_stopped, now)[k] == earlier[k]);
        k
    } else {
        let k = lemma_run_row_found(hosts[h], snapshots[hosts[h]].runs, show_stopped, now, j);
        earlier.len() + k
    }
}

/// Every session of every host has its row in the table, whatever state it is in, unless it is
/// stopped; on request those have theirs too.
pub proof fn lemma_every_session_has_a_row(
    snapshots: Map<Seq<char>, SnapshotView>,
    errors: Map<Seq<char>, Seq<char>>,
    show_stopped: bool,
    now: Timestamp,
    host: Seq<char>,
    j: int,
)
    requires
        snapshots.dom().finite(),
        snapshots.dom().contains(host),
        0 <= j < snapshots[host].runs.len(),
        snapshots[host].runs[j].state != "stopped"@ || show_stopped,
    ensures
        exists|k: int|
            0 <= k < table_rows(snapshots, errors, show_stopped, now).len() && tells_of(
                #[trigger] table_rows(snapshots, errors, show_stopped, now)[k],
                host,
                snapshots[host].runs[j],
                now,
            ),
{
    let hosts = table::sorted_keys(snapshots.dom());
    table::lemma_sorted_keys_exist(snapshots.dom());
    assert(hosts.to_set().contains(host));
    let h = choose|h: int| 0 <= h < hosts.len() && hosts[h] == host;
    let k = lemma_session_row_found(hosts, snapshots, show_stopped, now, h, j);
    let row = table_rows(snapshots, errors, show_stopped, now)[k];
    assert(row == session_rows(hosts, snapshots, show_stopped, now)[k]);
    assert(tells_of(row, host, snapshots[host].runs[j], now));
}

/// Every host that could not be read has its row, with what went wrong.
pub proof fn lemma_every_error_has_a_row(
    snapshots: Map<Seq<char>, SnapshotView>,
    errors: Map<Seq<char>, Seq<char>>,
    show_stopped: bool,
    now: Timestamp,
    host: Seq<char>,
)
    requires
        errors.dom().finite(),
        errors.dom().contains(host),
    ensures
        table_rows(snapshots, errors, show_stopped, now).contains(
            seq![
                host,
                "-"@,
                "-"@,
                "-"@,
                compact::compacted(errors[host], 54),
                "UNREACHABLE"@,
                "-"@,
            ],
        ),
{
    let hosts = table::sorted_keys(errors.dom());
    table::lemma_sorted_keys_exist(errors.dom());
    assert(hosts.to_set().contains(host));
    let h = choose|h: int| 0 <= h < hosts.len() && hosts[h] == host;
    let first = session_rows(table::sorted_keys(snapshots.dom()), snapshots, show_stopped, now);
    let rows = table_rows(snapshots, errors, show_stopped, now);
    assert(rows[first.len() + h] == error_row(host, errors[host]));
    assert(error_row(host, errors[host]) =~= seq![
        host,
        "-"@,
        "-"@,
        "-"@,
        compact::compacted(errors[host], 54),
        "UNREACHABLE"@,
        "-"@,
    ]);
}

/// Every row of the table is that of a session which is not stopped or was asked for, or that
/// of a host that could not be read.
pub proof fn lemma_every_row_belongs(
    snapshots: Map<Seq<char>, SnapshotView>,
    errors: Map<Seq<char>, Seq<char>>,
    show_stopped: bool,
    now: Timestamp,
    k: int,
)
    requires
        snapshots.dom().finite(),
        errors.dom().finite(),
        0 <= k < table_rows(snapshots, errors, show_stopped, now).len(),
    ensures
        ({
            let row = table_rows(snapshots, errors, show_stopped, now)[k];
            ||| exists|host: Seq<char>, j: int|
                #![trigger snapshots[host].runs[j]]
                {
                    &&& snapshots.dom().contains(host)
                    &&& 0 <= j < snapshots[host].runs.len()
                    &&& snapshots[host].runs[j].state != "stopped"@ || show_stopped
                    &&& tells_of(row, host, snapshots[host].runs[j], now)
                }
            ||| exists|host: Seq<char>| #[trigger]
                errors.dom().contains(host) && row[0] == host && row[4] == compact::compacted(
                    errors[host],
                    54,
                ) && row[5] == "UNREACHABLE"@
        }),
{
    lemma_stopped_rows_are_hidden(snapshots, errors, show_stopped, now, k);
    let row = table_rows(snapshots, errors, show_stopped, now)[k];
    if is_session_row(snapshots, show_stopped, now, row) {
        let (host, j) = choose|host: Seq<char>, j: int|
            #![trigger snapshots[host].runs[j]]
            {
                &&& snapshots.dom().contains(host)
                &&& 0 <= j < snapshots[host].runs.len()
                &&& is_shown(snapshots[host].runs[j], show_stopped)
                &&& row == run_row(host, snapshots[host].runs[j], now)
            };
        assert(tells_of(row, host, snapshots[host].runs[j], now));
    } else {
        let hosts = table::sorted_keys(errors.dom());
        table::lemma_sorted_keys_exist(errors.dom());
        let rows = error_rows(hosts, errors);
        let i = choose|i: int| 0 <= i < rows.len() && rows[i] == row;
        assert(hosts.to_set().contains(hosts[i]));
        assert(errors.dom().contains(hosts[i]));
    }
}

/// The rows of a host's sessions are in the order of the sessions, one for each.
pub proof fn lemma_rows_in_order(
    alias: Seq<char>,
    a: Seq<RunView>,
    b: Seq<RunView>,
    show_stopped: bool,
    now: Timestamp,
)
    ensures
        run_rows(alias, a + b, show_stopped, now) == run_rows(alias, a, show_stopped, now)
            + run_rows(alias, b, show_stopped, now),
        b.len() == 1 ==> run_rows(alias, b, show_stopped, now).len() == if b[0].state
            != "stopped"@ || show_stopped {
            1nat
        } else {
            0nat
        },
    decreases b.len(),
{
    let left = run_rows(alias, a, show_stopped, now);
    if b.len() == 0 {
        assert(a + b =~= a);
        assert(left + run_rows(alias, b, show_stopped, now) =~= left);
    } else {
        lemma_rows_in_order(alias, a, b.drop_last(), show_stopped, now);
        assert((a + b).drop_last() =~= a + b.drop_last());
        assert((a + b).last() == b.last());
        assert(run_rows(alias, a + b, show_stopped, now) =~= left + run_rows(
            alias,
            b,
            show_stopped,
            now,
        ));
        if b.len() == 1 {
            assert(run_rows(alias, b.drop_last(), show_stopped, now).len() == 0);
        }
    }
}

proof fn lemma_session_rows_same(
    hosts: Seq<Seq<char>>,
    one: Map<Seq<char>, SnapshotView>,
    other: Map<Seq<char>, SnapshotView>,
    show_stopped: bool,
    now: Timestamp,
)
    requires
        forall|i: int| 0 <= i < hosts.len() ==> one[#[trigger] hosts[i]] == other[hosts[i]],
    ensures
        session_rows(hosts, one, show_stopped, now) == session_rows(
            hosts,
            other,
            show_stopped,
            now,
        ),
    decreases hosts.len(),
{
    if hosts.len() > 0 {
        let fewer = hosts.drop_last();
        assert(forall|i: int| 0 <= i < fewer.len() ==> #[trigger] fewer[i] == hosts[i]);
        lemma_session_rows_same(fewer, one, other, show_stopped, now);
        assert(hosts[hosts.len() - 1] == hosts.last());
    }
}

/// The hosts are in ascending order: the rows of a host that comes after all others follow
/// theirs, and the rows of the hosts that could not be read come last.
pub proof fn lemma_hosts_in_order(
    snapshots: Map<Seq<char>, SnapshotView>,
    errors: Map<Seq<char>, Seq<char>>,
    show_stopped: bool,
    now: Timestamp,
    host: Seq<char>,
    snapshot: SnapshotView,
)
    requires
        snapshots.dom().finite(),
        forall|other: Seq<char>| #[trigger]
            snapshots.dom().contains(other) ==> text::before(other, host),
    ensures
        ({
            let none = Map::<Seq<char>, Seq<char>>::empty();
            let before = table_rows(snapshots, none, show_stopped, now);
            &&& table_rows(snapshots.insert(host, snapshot), none, show_stopped, now) == before
                + run_rows(host, snapshot.runs, show_stopped, now)
            &&& table_rows(snapshots, errors, show_stopped, now).take(before.len() as int)
                == before
        }),
{
    let none = Map::<Seq<char>, Seq<char>>::empty();
    let hosts = table::sorted_keys(snapshots.dom());
    table::lemma_sorted_keys_exist(snapshots.dom());
    let more = hosts.push(host);
    table::lemma_to_set_push(hosts, host);
    assert(table::ascending(more)) by {
        assert forall|i: int, j: int| 0 <= i < j < more.len() implies text::before(
            #[trigger] more[i],
            #[trigger] more[j],
        ) by {
            assert(more[i] == hosts[i]);
            assert(hosts.to_set().contains(hosts[i]));
        }
    }
    table::lemma_sorted_keys(more);
    let all = snapshots.insert(host, snapshot);
    assert(all.dom() =~= snapshots.dom().insert(host));
    assert forall|i: int| 0 <= i < hosts.len() implies all[#[trigger] hosts[i]]
        == snapshots[hosts[i]] by {
        assert(hosts.to_set().contains(hosts[i]));
        text::lemma_before_irreflexive(host);
    }
    lemma_session_rows_same(hosts, all, snapshots, show_stopped, now);
    assert(more.drop_last() =~= hosts);
    let empty = Seq::<Seq<char>>::empty();
    assert(empty.to_set() =~= none.dom());
    assert(table::ascending(empty));
    table::lemma_sorted_keys(empty);
    assert(error_rows(empty, none) =~= Seq::empty());
    let first = session_rows(hosts, snapshots, show_stopped, now);
    let last = session_rows(more, all, show_stopped, now);
    assert(first + error_rows(empty, none) =~= first);
    assert(last + error_rows(empty, none) =~= last);
    assert(table_rows(snapshots, errors, show_stopped, now).take(first.len() as int) =~= first);
}

/// Where a column begins: behind the columns before it, with a gap of two after each.
pub open spec fn column_start(widths: Seq<nat>, column: int) -> int
    decreases column,
{
    if column <= 0 {
        0
    } else {
        column_start(widths, column - 1) + widths[column - 1] + 2
    }
}

proof fn lemma_columns_length(parts: Seq<Seq<char>>, widths: Seq<nat>)
    requires
        parts.len() > 0,
        parts.len() <= widths.len(),
        forall|i: int| 0 <= i < parts.len() ==> (#[trigger] parts[i]).len() == widths[i],
    ensures
        split::join(parts, "  "@).len() == column_start(widths, parts.len() - 1)
            + widths[parts.len() - 1],
    decreases parts.len(),
{
    reveal_strlit("  ");
    assert("  "@.len() == 2);
    if parts.len() > 1 {
        let fewer = parts.drop_last();
        assert(forall|i: int| 0 <= i < fewer.len() ==> #[trigger] fewer[i] == parts[i]);
        lemma_columns_length(fewer, widths);
        assert(parts.last() == parts[parts.len() - 1]);
    } else {
        assert(parts[0].len() == widths[0]);
        assert(column_start(widths, 0) == 0);
    }
}

proof fn lemma_column_of_joined(parts: Seq<Seq<char>>, widths: Seq<nat>, column: int)
    requires
        parts.len() <= widths.len(),
        forall|i: int| 0 <= i < parts.len() ==> (#[trigger] parts[i]).len() == widths[i],
        0 <= column < parts.len(),
    ensures
        column_start(widths, column) >= 0,
        column_start(widths, column) + widths[column] <= split::join(parts, "  "@).len(),
        split::join(parts, "  "@).subrange(
            column_start(widths, column),
            column_start(widths, column) + widths[column],
        ) == parts[column],
    decreases parts.len(),
{
    reveal_strlit("  ");
    assert("  "@.len() == 2);
    let whole = split::join(parts, "  "@);
    let at = column_start(widths, column);
    if parts.len() == 1 {
        assert(whole == parts[0]);
        assert(whole.subrange(0, widths[0] as int) =~= parts[0]);
    } else {
        let fewer = parts.drop_last();
        let front = split::join(fewer, "  "@);
        assert(forall|i: int| 0 <= i < fewer.len() ==> #[trigger] fewer[i] == parts[i]);
        lemma_columns_length(fewer, widths);
        if column < fewer.len() {
            lemma_column_of_joined(fewer, widths, column);
            assert(whole.subrange(at, at + widths[column]) =~= front.subrange(
                at,
                at + widths[column],
            ));
        } else {
            assert(at == front.len() + 2);
            assert(parts.last() == parts[column]);
            lemma_column_of_joined(fewer, widths, column - 1);
            assert(whole.subrange(at, at + widths[column]) =~= parts[column]);
        }
    }
}

proof fn lemma_width_fits(rows: Seq<Seq<Seq<char>>>, column: int)
    ensures
        column_width(rows, column) >= headers()[column].len(),
        forall|k: int|
            0 <= k < rows.len() ==> column_width(rows, column) >= (#[trigger] rows[k])[column].len(),
        column_width(rows, column) == headers()[column].len() || exists|k: int|
            0 <= k < rows.len() && column_width(rows, column) == (#[trigger] rows[k])[column].len(),
    decreases rows.len(),
{
    if rows.len() > 0 {
        let fewer = rows.drop_last();
        lemma_width_fits(fewer, column);
        assert(forall|k: int| 0 <= k < fewer.len() ==> #[trigger] fewer[k] == rows[k]);
        assert(rows[rows.len() - 1] == rows.last());
        assert forall|k: int| 0 <= k < rows.len() implies column_width(rows, column) >= (
        #[trigger] rows[k])[column].len() by {
            if k < fewer.len() {
                assert(fewer[k] == rows[k]);
            }
        }
        if column_width(rows, column) != headers()[column].len() && column_width(rows, column)
            == column_width(fewer, column) {
            let k = choose|k: int|
                0 <= k < fewer.len() && column_width(fewer, column) == (
                #[trigger] fewer[k])[column].len();
            assert(rows[k] == fewer[k]);
        }
    }
}

/// A column is as wide as the widest of its cells and its header, and not wider.
pub proof fn lemma_column_width(rows: Seq<Seq<Seq<char>>>, column: int)
    requires
        0 <= column < 7,
    ensures
        widths_of(rows).len() == 7,
        widths_of(rows)[column] >= headers()[column].len(),
        forall|k: int|
            0 <= k < rows.len() ==> widths_of(rows)[column] >= (#[trigger] rows[k])[column].len(),
        widths_of(rows)[column] == headers()[column].len() || exists|k: int|
            0 <= k < rows.len() && widths_of(rows)[column] == (#[trigger] rows[k])[column].len(),
{
    lemma_width_fits(rows, column);
}

proof fn lemma_cell_of_line(cells: Seq<Seq<char>>, widths: Seq<nat>, column: int)
    requires
        cells.len() == widths.len(),
        0 <= column < cells.len(),
        forall|i: int| 0 <= i < cells.len() ==> (#[trigger] cells[i]).len() <= widths[i],
    ensures
        ({
            let at = column_start(widths, column);
            let line = row_line(cells, widths);
            &&& 0 <= at
            &&& at + widths[column] <= line.len()
            &&& line.subrange(at, at + cells[column].len()) == cells[column]
            &&& forall|i: int|
                at + cells[column].len() <= i < at + widths[column] ==> #[trigger] line[i] == ' '
        }),
{
    let parts = padded_cells(cells, widths);
    assert forall|i: int| 0 <= i < parts.len() implies (#[trigger] parts[i]).len() == widths[i] by {
        assert(cells[i].len() <= widths[i]);
    }
    lemma_column_of_joined(parts, widths, column);
    let at = column_start(widths, column);
    let line = row_line(cells, widths);
    let cell = cells[column];
    let field = line.subrange(at, at + widths[column]);
    assert(field == padded(cell, widths[column]));
    assert(line.subrange(at, at + cell.len()) =~= cell) by {
        assert forall|i: int| 0 <= i < cell.len() implies line[at + i] == cell[i] by {
            assert(line[at + i] == field[i]);
        }
    }
    assert forall|i: int| at + cell.len() <= i < at + widths[column] implies #[trigger] line[i]
        == ' ' by {
        assert(line[i] == field[i - at]);
    }
}

/// The table says every cell: each line holds the cells of its row, each under its header and
/// filled up with blanks, and the first line holds the headers.
pub proof fn lemma_cells_stand_in_columns(rows: Seq<Seq<Seq<char>>>, k: int, column: int)
    requires
        0 <= k < rows.len(),
        forall|i: int| 0 <= i < rows.len() ==> (#[trigger] rows[i]).len() == 7,
        0 <= column < 7,
    ensures
        ({
            let at = column_start(widths_of(rows), column);
            let lines = table_lines(rows);
            let cell = rows[k][column];
            let header = seq![
                "HOST"@,
                "TMUX"@,
                "TOOL"@,
                "PROJECT"@,
                "TASK"@,
                "STATE"@,
                "AGE"@,
            ][column];
            &&& table_text(rows) == split::join(lines, "\n"@)
            &&& lines.len() == rows.len() + 2
            &&& lines[0].subrange(at, at + header.len()) == header
            &&& lines[k + 2].subrange(at, at + cell.len()) == cell
            &&& forall|i: int|
                at + cell.len() <= i < at + widths_of(rows)[column] ==> #[trigger] lines[k + 2][i]
                    == ' '
        }),
{
    let widths = widths_of(rows);
    assert forall|c: int| 0 <= c < 7 implies (#[trigger] rows[k][c]).len() <= widths[c] by {
        lemma_column_width(rows, c);
    }
    assert forall|c: int| 0 <= c < 7 implies (#[trigger] headers()[c]).len() <= widths[c] by {
        lemma_column_width(rows, c);
    }
    lemma_cell_of_line(rows[k], widths, column);
    lemma_cell_of_line(headers(), widths, column);
    let lines = table_lines(rows);
    assert(lines[0] == row_line(headers(), widths));
    assert(lines[k + 2] == row_line(rows[k], widths));
}

/// Where there is nothing to show the table says so.
pub proof fn lemma_empty_table(rows: Seq<Seq<Seq<char>>>)
    ensures
        rows.len() == 0 ==> table_text(rows) == "No active LLM sessions found."@,
{
}

/// An age is told in the largest unit that it fills, as a whole number of them. What is yet to
/// come is no age, and a time that cannot be read has none.
pub proof fn lemma_age(value: Seq<char>, now: Timestamp)
    ensures
        time::moment(value) is None ==> age_text(value, now) == "?"@,
        time::moment(value) matches Some(at) ==> {
            let seconds = time::seconds_between(now, at);
            let age = age_text(value, now);
            &&& seconds <= 0 ==> age == number::decimal(0) + "s"@
            &&& 0 < seconds < 60 ==> age == number::decimal(seconds as nat) + "s"@
            &&& 60 <= seconds < 60 * 60 ==> exists|n: nat|
                60 * n <= seconds < 60 * (n + 1) && age == #[trigger] number::decimal(n) + "m"@
            &&& 60 * 60 <= seconds < 24 * 60 * 60 ==> exists|n: nat|
                60 * 60 * n <= seconds < 60 * 60 * (n + 1) && age == #[trigger] number::decimal(n)
                    + "h"@
            &&& 24 * 60 * 60 <= seconds ==> exists|n: nat|
                24 * 60 * 60 * n <= seconds < 24 * 60 * 60 * (n + 1) && age
                    == #[trigger] number::decimal(n) + "d"@
        },
{
    if let Some(at) = time::moment(value) {
        let seconds = time::seconds_between(now, at);
        let age = age_text(value, now);
        if 60 <= seconds < 3_600 {
            assert(age == number::decimal((seconds / 60) as nat) + "m"@);
        } else if 3_600 <= seconds < 86_400 {
            assert(age == number::decimal((seconds / 3_600) as nat) + "h"@);
        } else if 86_400 <= seconds {
            assert(age == number::decimal((seconds / 86_400) as nat) + "d"@);
        }
    }
}

// ---------------------------------------------------------------------------
// What a poll brings
// ---------------------------------------------------------------------------

/// Every host that gave a snapshot has it among the snapshots, and every host that gave an
/// error has it among the errors; where a host comes more than once, the last one counts.
pub proof fn lemma_results_are_collected(
    results: Seq<(String, Result<Snapshot, String>)>,
    i: int,
)
    requires
        0 <= i < results.len(),
    ensures
        results[i].1 matches Ok(snapshot) ==> ((forall|j: int|
            i < j < results.len() && (#[trigger] results[j]).0@ == results[i].0@
                ==> results[j].1 is Err) ==> snapshots_in(results).dom().contains(results[i].0@)
            && snapshots_in(results)[results[i].0@] == snapshot.deep_view()),
        results[i].1 matches Err(error) ==> ((forall|j: int|
            i < j < results.len() && (#[trigger] results[j]).0@ == results[i].0@
                ==> results[j].1 is Ok) ==> errors_in(results).dom().contains(results[i].0@)
            && errors_in(results)[results[i].0@] == error@),
    decreases results.len(),
{
    let fewer = results.drop_last();
    if i < fewer.len() {
        lemma_results_are_collected(fewer, i);
        assert(forall|j: int| 0 <= j < fewer.len() ==> #[trigger] fewer[j] == results[j]);
        assert(results[results.len() - 1] == results.last());
    }
}

/// Only hosts that gave a snapshot are among the snapshots, and only those that gave an error
/// are among the errors.
pub proof fn lemma_only_results_are_collected(
    results: Seq<(String, Result<Snapshot, String>)>,
    host: Seq<char>,
)
    ensures
        snapshots_in(results).dom().contains(host) ==> exists|i: int|
            0 <= i < results.len() && (#[trigger] results[i]).0@ == host && results[i].1 is Ok,
        errors_in(results).dom().contains(host) ==> exists|i: int|
            0 <= i < results.len() && (#[trigger] results[i]).0@ == host && results[i].1 is Err,
    decreases results.len(),
{
    if results.len() > 0 {
        let fewer = results.drop_last();
        lemma_only_results_are_collected(fewer, host);
        assert(results[results.len() - 1] == results.last());
        if snapshots_in(fewer).dom().contains(host) {
            let i = choose|i: int|
                0 <= i < fewer.len() && (#[trigger] fewer[i]).0@ == host && fewer[i].1 is Ok;
            assert(results[i] == fewer[i]);
        }
        if errors_in(fewer).dom().contains(host) {
            let i = choose|i: int|
                0 <= i < fewer.len() && (#[trigger] fewer[i]).0@ == host && fewer[i].1 is Err;
            assert(results[i] == fewer[i]);
        }
    }
}

/// Whatever is printed around it, the last line that is a snapshot counts.
pub proof fn lemma_last_snapshot(decoded: Seq<Option<Snapshot>>, i: int)
    requires
        0 <= i < decoded.len(),
        decoded[i] is Some,
        forall|j: int| i < j < decoded.len() ==> #[trigger] decoded[j] is None,
    ensures
        last_snapshot(decoded) == Some(decoded[i]->Some_0.deep_view()),
    decreases decoded.len(),
{
    if i < decoded.len() - 1 {
        let fewer = decoded.drop_last();
        assert(decoded[decoded.len() - 1] is None);
        assert(forall|j: int| 0 <= j < fewer.len() ==> #[trigger] fewer[j] == decoded[j]);
        lemma_last_snapshot(fewer, i);
    }
}

/// Without a line that is a snapshot there is none.
pub proof fn lemma_no_snapshot(decoded: Seq<Option<Snapshot>>)
    requires
        forall|j: int| 0 <= j < decoded.len() ==> #[trigger] decoded[j] is None,
    ensures
        last_snapshot(decoded) is None,
    decreases decoded.len(),
{
    if decoded.len() > 0 {
        let fewer = decoded.drop_last();
        assert(decoded[decoded.len() - 1] is None);
        assert(forall|j: int| 0 <= j < fewer.len() ==> #[trigger] fewer[j] == decoded[j]);
        lemma_no_snapshot(fewer);
    }
}

proof fn lemma_last_line(lines: Seq<Seq<char>>, i: int)
    requires
        0 <= i < lines.len(),
        split::trim(lines[i]).len() > 0,
        forall|j: int| i < j < lines.len() ==> split::trim(#[trigger] lines[j]).len() == 0,
    ensures
        last_line(lines) == Some(lines[i]),
    decreases lines.len(),
{
    if i < lines.len() - 1 {
        let fewer = lines.drop_last();
        assert(split::trim(lines[lines.len() - 1]).len() == 0);
        assert(forall|j: int| 0 <= j < fewer.len() ==> #[trigger] fewer[j] == lines[j]);
        lemma_last_line(fewer, i);
    }
}

/// Of what `ssh` wrote to its error output, the last line that is not blank is told.
pub proof fn lemma_complaint(stderr: Seq<char>, i: int)
    requires
        0 <= i < split::lines(stderr).len(),
        split::trim(split::lines(stderr)[i]).len() > 0,
        forall|j: int|
            i < j < split::lines(stderr).len() ==> split::trim(
                #[trigger] split::lines(stderr)[j],
            ).len() == 0,
    ensures
        complaint(stderr) == split::lines(stderr)[i],
{
    lemma_last_line(split::lines(stderr), i);
}

/// The second line of the table draws a rule under each header, as long as its column is wide.
pub proof fn lemma_rule(rows: Seq<Seq<Seq<char>>>, column: int, i: int)
    requires
        rows.len() > 0,
        0 <= column < 7,
        0 <= i < widths_of(rows)[column],
    ensures
        table_lines(rows)[1][column_start(widths_of(rows), column) + i] == '-',
{
    let widths = widths_of(rows);
    let parts = Seq::new(widths.len(), |i: int| text::repeated('-', widths[i]));
    assert forall|i: int| 0 <= i < parts.len() implies (#[trigger] parts[i]).len() == widths[i] by {}
    lemma_column_of_joined(parts, widths, column);
    let at = column_start(widths, column);
    let line = rule_line(widths);
    assert(table_lines(rows)[1] == line);
    assert(line.subrange(at, at + widths[column])[i] == parts[column][i]);
}

/// A devbox is asked by name, without a prompt, with at least a second to answer, for as many
/// events as are wanted.
pub proof fn lemma_ssh_words(host: Seq<char>, timeout: nat, events: nat)
    ensures
        ({
            let words = ssh_words(host, timeout, events);
            &&& words.len() == 6
            &&& words[0] == "-o"@ && words[1] == "BatchMode=yes"@ && words[2] == "-o"@
            &&& timeout >= 1 ==> words[3] == "ConnectTimeout="@ + number::decimal(timeout)
            &&& timeout == 0 ==> words[3] == "ConnectTimeout="@ + number::decimal(1)
            &&& words[4] == host
            &&& words[5] == "~/.local/bin/llm-watch snapshot --events "@ + number::decimal(events)
        }),
{
}

/// Four aliases stand for the machine itself, and no other.
pub proof fn lemma_local_aliases(host: Seq<char>)
    ensures
        is_local(host) == seq!["local"@, "localhost"@, "127.0.0.1"@, "::1"@].contains(host),
{
    let all = seq!["local"@, "localhost"@, "127.0.0.1"@, "::1"@];
    assert(all[0] == "local"@ && all[1] == "localhost"@ && all[2] == "127.0.0.1"@ && all[3]
        == "::1"@);
}

/// The line under the table tells when it was drawn.
pub proof fn lemma_status(now: Seq<char>)
    ensures
        status_text(now) == "Updated "@ + (now + " · Ctrl+C to stop"@),
{
    assert(status_text(now) =~= "Updated "@ + (now + " · Ctrl+C to stop"@));
}

} // verus!
