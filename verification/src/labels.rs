//! Work-stream labels of devboxes.
use vstd::prelude::*;

use crate::compact;
use crate::compact::compact_text;
use crate::config;
use crate::config::{pair_of, push_line, ConfigError};
use crate::paths;
use crate::paths::join;
use crate::split;
use crate::split::{split_lines, trimmed};
use crate::table;
use crate::table::Table;
use crate::text;
use crate::text::{to_chars, to_text};

verus! {

pub const LABEL_LIMIT: usize = 60;

/// The lines that the file begins with.
pub open spec fn header() -> Seq<Seq<char>> {
    seq![
        "# Work-stream labels for the llm-watch dashboard."@,
        "# One `host = label` per line; `#` starts a comment."@,
        "# Edited in place by the web dashboard."@,
    ]
}

/// The labels once a further line is read. A line that is not `host = label` is skipped;
/// a later label of a host takes the place of an earlier one.
pub open spec fn with_line(all: Map<Seq<char>, Seq<char>>, line: Seq<char>) -> Map<
    Seq<char>,
    Seq<char>,
> {
    match config::pair(line) {
        None => all,
        Some((host, value)) => {
            let label = split::trim(value);
            if host.len() > 0 && label.len() > 0 {
                all.insert(host, label)
            } else {
                all
            }
        },
    }
}

/// The labels that the lines give.
pub open spec fn in_lines(lines: Seq<Seq<char>>) -> Map<Seq<char>, Seq<char>>
    decreases lines.len(),
{
    if lines.len() == 0 {
        Map::empty()
    } else {
        with_line(in_lines(lines.drop_last()), lines.last())
    }
}

/// The labels that the content of the file gives.
pub open spec fn labels_in(content: Seq<char>) -> Map<Seq<char>, Seq<char>> {
    in_lines(split::lines(content))
}

/// A label with what the line format cannot represent blanked out.
pub open spec fn cleaned(label: Seq<char>) -> Seq<char> {
    Seq::new(
        label.len(),
        |i: int|
            if label[i] == '#' || label[i] == '\n' || label[i] == '\r' {
                ' '
            } else {
                label[i]
            },
    )
}

/// A label as it is stored.
pub open spec fn sanitized(label: Seq<char>) -> Seq<char> {
    compact::compacted(cleaned(label), LABEL_LIMIT as nat)
}

/// The lines for the hosts.
pub open spec fn all_lines(hosts: Seq<Seq<char>>, all: Map<Seq<char>, Seq<char>>) -> Seq<
    Seq<char>,
> {
    Seq::new(hosts.len(), |i: int| config::line(hosts[i], all[hosts[i]]))
}

/// The content of the file that gives the labels, host by host in ascending order.
pub open spec fn file_text(all: Map<Seq<char>, Seq<char>>) -> Seq<char> {
    config::unlines(header() + all_lines(table::sorted_keys(all.dom()), all))
}

/// The labels with the one of a host changed; an empty label clears it.
pub open spec fn changed(
    all: Map<Seq<char>, Seq<char>>,
    host: Seq<char>,
    label: Seq<char>,
) -> Map<Seq<char>, Seq<char>> {
    if label.len() == 0 {
        all.remove(host)
    } else {
        all.insert(host, label)
    }
}

/// Reads `host = label` lines. Anything unparseable is skipped rather than failing the
/// poll that asked for it.
pub fn read_labels(content: &str) -> (all: Table<String>)
    ensures
        all@ == labels_in(content@),
{
    let chars = to_chars(content);
    let lines = split_lines(chars.as_slice());
    let ghost every = split::lines(content@);
    let mut all: Table<String> = Table::new();
    let mut i: usize = 0;
    while i < lines.len()
        invariant
            i <= lines@.len(),
            every == split::views(lines@),
            all@ == in_lines(every.take(i as int)),
        decreases lines@.len() - i,
    {
        assert(every.take(i + 1).drop_last() =~= every.take(i as int));
        assert(every.take(i + 1).last() == lines@[i as int]@);
        if let Some((host, value)) = pair_of(lines[i]) {
            let label = trimmed(value);
            if host.len() > 0 && label.len() > 0 {
                all.insert(to_text(host), to_text(label));
            }
        }
        i += 1;
    }
    assert(every.take(i as int) =~= every);
    all
}

/// Strips what the line format cannot represent, then bounds the length.
pub fn sanitize(label: &str) -> (r: String)
    ensures
        r@ == sanitized(label@),
{
    let chars = to_chars(label);
    let mut out = String::new();
    let mut i: usize = 0;
    while i < chars.len()
        invariant
            chars@ == label@,
            i <= chars@.len(),
            out@ == cleaned(label@).take(i as int),
        decreases chars@.len() - i,
    {
        let c = chars[i];
        out.push(
            if c == '#' || c == '\n' || c == '\r' {
                ' '
            } else {
                c
            },
        );
        i += 1;
        assert(out@ =~= cleaned(label@).take(i as int));
    }
    assert(out@ =~= cleaned(label@));
    compact_text(out.as_str(), LABEL_LIMIT)
}

/// The content of the file that gives the labels.
pub fn write_labels(all: &Table<String>) -> (content: String)
    ensures
        content@ == file_text(all@),
{
    let mut content = String::new();
    let ghost top = header();
    let ghost keys = table::sorted_keys(all@.dom());
    let ghost body = all_lines(keys, all@);
    push_line(&mut content, "# Work-stream labels for the llm-watch dashboard.");
    push_line(&mut content, "# One `host = label` per line; `#` starts a comment.");
    push_line(&mut content, "# Edited in place by the web dashboard.");
    proof {
        reveal_with_fuel(config::unlines, 4);
        assert(top.drop_last() =~= seq![top[0], top[1]]);
        assert(top.drop_last().drop_last() =~= seq![top[0]]);
        assert(top.drop_last().drop_last().drop_last() =~= seq![]);
        assert(content@ =~= config::unlines(top));
        assert(top + body.take(0) =~= top);
    }
    let mut i: usize = 0;
    let count: usize = all.len();
    while i < count
        invariant
            count == keys.len(),
            keys == table::sorted_keys(all@.dom()),
            i <= count,
            body == all_lines(keys, all@),
            content@ == config::unlines(top + body.take(i as int)),
        decreases count - i,
    {
        let mut line = all.key_at(i).clone();
        line.append(" = ");
        line.append(all.value_at(i).as_str());
        push_line(&mut content, line.as_str());
        proof {
            let next = top + body.take(i + 1);
            assert(line@ =~= body[i as int]);
            assert(next.drop_last() =~= top + body.take(i as int));
            assert(next.last() == line@);
        }
        i += 1;
    }
    assert(body.take(i as int) =~= body);
    content
}

/// An edit of the labels: the new content of the file, and the label as it is stored.
pub struct LabelEdit {
    pub content: String,
    pub label: String,
}

/// Sets or, when `label` is empty, clears one host's label. Other hosts keep theirs, so two
/// dashboards editing different hosts cannot erase each other.
pub fn set_label(content: &str, host: &str, label: &str) -> (r: Result<LabelEdit, ConfigError>)
    ensures
        match r {
            Ok(edit) => {
                &&& split::trim(host@).len() > 0
                &&& edit.label@ == sanitized(label@)
                &&& edit.content@ == file_text(
                    changed(labels_in(content@), split::trim(host@), sanitized(label@)),
                )
            },
            Err(error) => split::trim(host@).len() == 0 && error == ConfigError::EmptyHost,
        },
{
    let chars = to_chars(host);
    let name = to_text(trimmed(chars.as_slice()));
    if name.as_str().is_empty() {
        return Err(ConfigError::EmptyHost);
    }
    let label = sanitize(label);
    let mut all = read_labels(content);
    if label.as_str().is_empty() {
        all.remove(name.as_str());
    } else {
        all.insert(name, label.clone());
    }
    let content = write_labels(&all);
    Ok(LabelEdit { content, label })
}

/// Where the labels are kept.
pub fn labels_path(config_dir: &str) -> (r: String)
    ensures
        r@ == paths::joined(config_dir@, "labels"@),
{
    join(config_dir, "labels")
}

// ---------------------------------------------------------------------------
// What the file keeps
// ---------------------------------------------------------------------------

/// Labels as a file can give them.
pub open spec fn storable(all: Map<Seq<char>, Seq<char>>) -> bool {
    &&& all.dom().finite()
    &&& forall|host: Seq<char>| #[trigger]
        all.dom().contains(host) ==> config::is_key(host) && host.len() > 0 && config::is_value(
            all[host],
        )
}

proof fn lemma_in_lines_storable(lines: Seq<Seq<char>>)
    requires
        forall|i: int| 0 <= i < lines.len() ==> !(#[trigger] lines[i]).contains('\n'),
    ensures
        storable(in_lines(lines)),
    decreases lines.len(),
{
    if lines.len() > 0 {
        let rest = lines.drop_last();
        assert forall|i: int| 0 <= i < rest.len() implies !(#[trigger] rest[i]).contains('\n') by {
            assert(rest[i] == lines[i]);
        }
        lemma_in_lines_storable(rest);
        config::lemma_pair_parts(lines.last());
    }
}

/// Whatever the file holds, the labels that it gives can be written back.
pub proof fn lemma_labels_are_storable(content: Seq<char>)
    ensures
        storable(labels_in(content)),
{
    config::lemma_lines_hold_no_line_end(content);
    lemma_in_lines_storable(split::lines(content));
}

/// A label that is stored cannot break the line format: it is trimmed and holds neither
/// `#` nor a line end. It is at most as long as the limit.
pub proof fn lemma_sanitized_is_value(label: Seq<char>)
    ensures
        sanitized(label).len() <= LABEL_LIMIT,
        sanitized(label).len() > 0 ==> config::is_value(sanitized(label)),
        !sanitized(label).contains('\r'),
{
    let plain = cleaned(label);
    let limit = LABEL_LIMIT as nat;
    compact::lemma_compacted_length(plain, limit);
    compact::lemma_compacted_is_tidy(plain, limit);
    compact::lemma_tidy_is_trimmed(sanitized(label));
    assert(!plain.contains('#'));
    assert(!plain.contains('\n'));
    assert(!plain.contains('\r'));
    compact::lemma_compacted_holds_only(plain, limit, '#');
    compact::lemma_compacted_holds_only(plain, limit, '\n');
    compact::lemma_compacted_holds_only(plain, limit, '\r');
}

/// A stored label is stored as it is when it is saved once more.
pub proof fn lemma_sanitized_twice(label: Seq<char>)
    ensures
        sanitized(sanitized(label)) == sanitized(label),
{
    let once = sanitized(label);
    lemma_sanitized_is_value(label);
    assert(cleaned(once) =~= once) by {
        assert forall|i: int| 0 <= i < once.len() implies cleaned(once)[i] == once[i] by {
            assert(once.contains(once[i]));
            if once.len() > 0 {
                assert(!once.contains('#') && !once.contains('\n'));
            }
        }
    }
    compact::lemma_compacted_twice(cleaned(label), LABEL_LIMIT as nat);
}

proof fn lemma_all_lines(
    front: Seq<Seq<char>>,
    hosts: Seq<Seq<char>>,
    all: Map<Seq<char>, Seq<char>>,
)
    requires
        storable(all),
        table::ascending(hosts),
        hosts.to_set().subset_of(all.dom()),
        in_lines(front) == Map::<Seq<char>, Seq<char>>::empty(),
    ensures
        in_lines(front + all_lines(hosts, all)) == all.restrict(hosts.to_set()),
        config::are_plain_lines(all_lines(hosts, all)),
    decreases hosts.len(),
{
    let lines = all_lines(hosts, all);
    if hosts.len() == 0 {
        assert(front + lines =~= front);
        assert(all.restrict(hosts.to_set()) =~= Map::empty());
    } else {
        let fewer = hosts.drop_last();
        let host = hosts.last();
        assert(hosts.to_set().contains(hosts[hosts.len() - 1]));
        assert forall|k: Seq<char>| hosts.to_set().contains(k) == (fewer.to_set().contains(k) || k
            == host) by {
            if hosts.to_set().contains(k) {
                let i = choose|i: int| 0 <= i < hosts.len() && hosts[i] == k;
                if i < fewer.len() {
                    assert(fewer[i] == k);
                }
            }
            if fewer.to_set().contains(k) {
                let i = choose|i: int| 0 <= i < fewer.len() && fewer[i] == k;
                assert(hosts[i] == k);
            }
        }
        assert(table::ascending(fewer)) by {
            assert forall|i: int, j: int| 0 <= i < j < fewer.len() implies text::before(
                #[trigger] fewer[i],
                #[trigger] fewer[j],
            ) by {
                assert(fewer[i] == hosts[i] && fewer[j] == hosts[j]);
            }
        }
        lemma_all_lines(front, fewer, all);
        assert(all.dom().contains(host));
        config::lemma_line_reads_back(host, all[host]);
        assert((front + lines).drop_last() =~= front + all_lines(fewer, all));
        assert((front + lines).last() == config::line(host, all[host]));
        assert(all.restrict(fewer.to_set()).insert(host, all[host]) =~= all.restrict(
            hosts.to_set(),
        ));
        assert forall|i: int| 0 <= i < lines.len() implies config::is_plain_line(
            #[trigger] lines[i],
        ) by {
            if i < fewer.len() {
                assert(lines[i] == all_lines(fewer, all)[i]);
            }
        }
    }
}

proof fn lemma_header()
    ensures
        in_lines(header()) == Map::<Seq<char>, Seq<char>>::empty(),
        config::are_plain_lines(header()),
{
    reveal_strlit("# Work-stream labels for the llm-watch dashboard.");
    reveal_strlit("# One `host = label` per line; `#` starts a comment.");
    reveal_strlit("# Edited in place by the web dashboard.");
    let top = header();
    config::lemma_comment(top[0]);
    config::lemma_comment(top[1]);
    config::lemma_comment(top[2]);
    reveal_with_fuel(in_lines, 4);
    assert(top.drop_last().last() == top[1]);
    assert(top.drop_last().drop_last().last() == top[0]);
    assert(!top[0].contains('\n'));
    assert(!top[1].contains('\n'));
    assert(!top[2].contains('\n'));
}

/// The file gives back every label that was written to it.
pub proof fn lemma_file_reads_back(all: Map<Seq<char>, Seq<char>>)
    requires
        storable(all),
    ensures
        labels_in(file_text(all)) == all,
{
    let hosts = table::sorted_keys(all.dom());
    table::lemma_sorted_keys_exist(all.dom());
    lemma_header();
    lemma_all_lines(header(), hosts, all);
    let lines = header() + all_lines(hosts, all);
    assert(config::are_plain_lines(lines)) by {
        assert forall|i: int| 0 <= i < lines.len() implies config::is_plain_line(
            #[trigger] lines[i],
        ) by {
            if i < header().len() {
                assert(lines[i] == header()[i]);
            } else {
                assert(lines[i] == all_lines(hosts, all)[i - header().len()]);
            }
        }
    }
    config::lemma_lines_read_back(lines);
    assert(all.restrict(all.dom()) =~= all);
}

/// A label that was set is there when the file is read again, a cleared one is gone, and
/// every other host has the label it had.
pub proof fn lemma_set_reads_back(content: Seq<char>, host: Seq<char>, label: Seq<char>)
    requires
        config::is_key(host),
        host.len() > 0,
    ensures
        labels_in(file_text(changed(labels_in(content), host, sanitized(label)))) == changed(
            labels_in(content),
            host,
            sanitized(label),
        ),
{
    lemma_labels_are_storable(content);
    lemma_sanitized_is_value(label);
    lemma_file_reads_back(changed(labels_in(content), host, sanitized(label)));
}

/// The line gives the host a label.
pub open spec fn gives_label(line: Seq<char>, host: Seq<char>) -> bool {
    &&& host.len() > 0
    &&& config::pair(line) matches Some((key, value)) && key == host && split::trim(value).len() > 0
}

/// The label of a host is that of the last line that gives it one, whichever line it is.
pub proof fn lemma_last_label_counts(lines: Seq<Seq<char>>, host: Seq<char>, i: int)
    requires
        0 <= i < lines.len(),
        gives_label(lines[i], host),
        forall|j: int| i < j < lines.len() ==> !gives_label(#[trigger] lines[j], host),
    ensures
        in_lines(lines).dom().contains(host),
        in_lines(lines)[host] == split::trim(config::pair(lines[i])->Some_0.1),
    decreases lines.len(),
{
    if i < lines.len() - 1 {
        let fewer = lines.drop_last();
        assert(forall|j: int| 0 <= j < fewer.len() ==> #[trigger] fewer[j] == lines[j]);
        assert(!gives_label(lines[lines.len() - 1], host));
        lemma_last_label_counts(fewer, host, i);
    }
}

/// A host that no line gives a label has none.
pub proof fn lemma_no_label(lines: Seq<Seq<char>>, host: Seq<char>)
    requires
        forall|j: int| 0 <= j < lines.len() ==> !gives_label(#[trigger] lines[j], host),
    ensures
        !in_lines(lines).dom().contains(host),
    decreases lines.len(),
{
    if lines.len() > 0 {
        let fewer = lines.drop_last();
        assert(forall|j: int| 0 <= j < fewer.len() ==> #[trigger] fewer[j] == lines[j]);
        assert(!gives_label(lines[lines.len() - 1], host));
        lemma_no_label(fewer, host);
    }
}

/// Once a label is set the file gives it to its host, or gives none if there is nothing left of
/// the label, and every other host has what it had.
pub proof fn lemma_label_is_set(
    content: Seq<char>,
    host: Seq<char>,
    label: Seq<char>,
    other: Seq<char>,
)
    requires
        config::is_key(host),
        host.len() > 0,
        other != host,
    ensures
        ({
            let before = labels_in(content);
            let after = labels_in(file_text(changed(before, host, sanitized(label))));
            &&& sanitized(label).len() > 0 ==> after.dom().contains(host) && after[host]
                == sanitized(label)
            &&& sanitized(label).len() == 0 ==> !after.dom().contains(host)
            &&& after.dom().contains(other) == before.dom().contains(other)
            &&& before.dom().contains(other) ==> after[other] == before[other]
        }),
{
    lemma_set_reads_back(content, host, label);
}

/// A label of at most 60 characters keeps its words; a `#` or a line end only parts them.
pub proof fn lemma_label_keeps_its_words(a: Seq<char>, gap: char, b: Seq<char>)
    requires
        gap == '#' || gap == '\n' || gap == '\r' || gap == ' ',
        !a.contains('#'),
        !b.contains('#'),
        (a + seq![gap] + b).len() <= 60,
    ensures
        split::words(sanitized(a + seq![gap] + b)) == split::words(a) + split::words(b),
{
    let label = a + seq![gap] + b;
    let clean = cleaned(label);
    compact::lemma_short_text_keeps_its_words(clean, 60);
    lemma_cleaned_words(a);
    lemma_cleaned_words(b);
    assert(clean =~= cleaned(a) + seq![' '] + cleaned(b));
    split::lemma_words_part(cleaned(a), ' ', cleaned(b));
}

proof fn lemma_cleaned_words(s: Seq<char>)
    requires
        !s.contains('#'),
    ensures
        split::words(cleaned(s)) == split::words(s),
    decreases s.len(), s.len() + 1,
{
    if s.len() > 0 {
        let fewer = s.drop_last();
        let last = s.last();
        if fewer.contains('#') {
            let i = choose|i: int| 0 <= i < fewer.len() && fewer[i] == '#';
            assert(s[i] == '#');
        }
        assert(s.contains(last)) by {
            assert(s[s.len() - 1] == last);
        }
        if text::is_space(last) {
            lemma_cleaned_words(fewer);
            let none = Seq::<char>::empty();
            let blank = cleaned(s).last();
            split::lemma_words_part(fewer, last, none);
            split::lemma_words_part(cleaned(fewer), blank, none);
            assert(fewer + seq![last] + none =~= s);
            assert(cleaned(fewer) + seq![blank] + none =~= cleaned(s));
        } else {
            lemma_cleaned_from_space(s, s.len() as int);
        }
    } else {
        assert(cleaned(s) =~= s);
    }
}

/// The last word of a text stays as it is, and what comes before it is cleaned on its own.
proof fn lemma_cleaned_from_space(s: Seq<char>, n: int)
    requires
        !s.contains('#'),
        0 < n <= s.len(),
        forall|j: int| n <= j < s.len() ==> !text::is_space(#[trigger] s[j]),
    ensures
        split::words(cleaned(s)) == split::words(s),
    decreases s.len(), n,
{
    if !text::is_space(s[n - 1]) {
        if n > 1 {
            assert forall|j: int| n - 1 <= j < s.len() implies !text::is_space(#[trigger] s[j]) by {}
            lemma_cleaned_from_space(s, n - 1);
        } else {
            assert(cleaned(s) =~= s) by {
                assert forall|j: int| 0 <= j < s.len() implies cleaned(s)[j] == s[j] by {
                    assert(!text::is_space(s[j]));
                    assert(s.contains(s[j]));
                }
            }
        }
    } else {
        let front = s.take(n - 1);
        let word = s.skip(n);
        let gap = s[n - 1];
        if front.contains('#') {
            let i = choose|i: int| 0 <= i < front.len() && front[i] == '#';
            assert(s[i] == '#');
        }
        assert(s.contains(gap));
        lemma_cleaned_words(front);
        assert(cleaned(word) =~= word) by {
            assert forall|j: int| 0 <= j < word.len() implies cleaned(word)[j] == word[j] by {
                assert(word[j] == s[j + n]);
                assert(!text::is_space(s[j + n]));
                assert(s.contains(s[j + n]));
            }
        }
        let blank = cleaned(s)[n - 1];
        split::lemma_words_part(front, gap, word);
        split::lemma_words_part(cleaned(front), blank, word);
        assert(front + seq![gap] + word =~= s);
        assert(cleaned(s) =~= cleaned(front) + seq![blank] + word) by {
            assert forall|j: int| 0 <= j < s.len() implies cleaned(s)[j] == (cleaned(front) + seq![
                blank,
            ] + word)[j] by {
                if j >= n {
                    assert(cleaned(word)[j - n] == word[j - n]);
                    assert(s[j] == word[j - n]);
                }
            }
        }
    }
}

} // verus!
