//! The line format of the configuration files: one entry per line, `#` starts a comment.
use vstd::prelude::*;
use vstd::slice::slice_subrange;

use crate::split;
use crate::split::{index_of, split_lines, trimmed};
use crate::text;
use crate::text::{to_chars, to_text};

verus! {

/// Why an edit of a configuration file is refused.
#[derive(Clone, Copy, Debug, PartialEq, Eq, Structural)]
pub enum ConfigError {
    EmptyHost,
}

impl ConfigError {
    pub fn message(self) -> (r: String)
        ensures
            r@ == "host must not be empty"@,
    {
        "host must not be empty".to_owned()
    }
}

/// A line up to its comment, without white space around it.
pub open spec fn entry(line: Seq<char>) -> Seq<char> {
    split::trim(line.take(split::find(line, '#') as int))
}

/// What a line says before and after its first `=`, with the key trimmed.
pub open spec fn pair(line: Seq<char>) -> Option<(Seq<char>, Seq<char>)> {
    let e = entry(line);
    let n = split::find(e, '=') as int;
    if n == e.len() {
        None
    } else {
        Some((split::trim(e.take(n)), e.skip(n + 1)))
    }
}

/// The entries of a list file that are not empty, in the order of its lines.
pub open spec fn entries(lines: Seq<Seq<char>>) -> Seq<Seq<char>>
    decreases lines.len(),
{
    if lines.len() == 0 {
        seq![]
    } else {
        let rest = entries(lines.drop_last());
        let e = entry(lines.last());
        if e.len() == 0 {
            rest
        } else {
            rest.push(e)
        }
    }
}

pub fn entry_of(line: &[char]) -> (r: &[char])
    ensures
        r@ == entry(line@),
{
    let n: usize = index_of(line, '#');
    let head = slice_subrange(line, 0, n);
    assert(head@ =~= line@.take(n as int));
    trimmed(head)
}

pub fn pair_of(line: &[char]) -> (r: Option<(&[char], &[char])>)
    ensures
        match r {
            Some((key, value)) => pair(line@) == Some((key@, value@)),
            None => pair(line@) is None,
        },
{
    let e = entry_of(line);
    let n: usize = index_of(e, '=');
    if n == e.len() {
        return None;
    }
    let key = slice_subrange(e, 0, n);
    let value = slice_subrange(e, n + 1, e.len());
    assert(key@ =~= e@.take(n as int));
    assert(value@ =~= e@.skip(n + 1));
    Some((trimmed(key), value))
}

/// Reads a list file: one entry per line, `#` begins a comment.
pub fn read_list_file(content: &str) -> (r: Vec<String>)
    ensures
        split::texts(r@) == entries(split::lines(content@)),
{
    let chars = to_chars(content);
    let lines = split_lines(chars.as_slice());
    let ghost all = split::lines(content@);
    let mut out: Vec<String> = Vec::new();
    let mut i: usize = 0;
    while i < lines.len()
        invariant
            i <= lines@.len(),
            all == split::views(lines@),
            split::texts(out@) == entries(all.take(i as int)),
        decreases lines@.len() - i,
    {
        let ghost earlier = out@;
        assert(all.take(i + 1).drop_last() =~= all.take(i as int));
        assert(all.take(i + 1).last() == lines@[i as int]@);
        let e = entry_of(lines[i]);
        if e.len() > 0 {
            out.push(to_text(e));
            assert(split::texts(out@) =~= split::texts(earlier).push(e@));
        }
        i += 1;
    }
    assert(all.take(i as int) =~= all);
    out
}

// ---------------------------------------------------------------------------
// Writing lines that read back
// ---------------------------------------------------------------------------

/// A line that says `key = value`.
pub open spec fn line(key: Seq<char>, value: Seq<char>) -> Seq<char> {
    key + " = "@ + value
}

/// A key that a line can hold: trimmed, and free of `=`, `#` and line ends.
pub open spec fn is_key(key: Seq<char>) -> bool {
    &&& split::trim(key) == key
    &&& !key.contains('=')
    &&& !key.contains('#')
    &&& !key.contains('\n')
}

/// A value that a line can hold: trimmed, not empty, and free of `#` and line ends.
pub open spec fn is_value(value: Seq<char>) -> bool {
    &&& split::trim(value) == value
    &&& value.len() > 0
    &&& !value.contains('#')
    &&& !value.contains('\n')
}

/// A trimmed text neither begins nor ends with white space.
pub proof fn lemma_trimmed_ends(s: Seq<char>)
    requires
        split::trim(s) == s,
        s.len() > 0,
    ensures
        !text::is_space(s[0]),
        !text::is_space(s.last()),
{
    split::lemma_trim(s);
}

/// A line that was made from a key and a value says them again.
pub proof fn lemma_line_reads_back(key: Seq<char>, value: Seq<char>)
    requires
        is_key(key),
        is_value(value),
    ensures
        pair(line(key, value)) == Some((key, " "@ + value)),
        split::trim(" "@ + value) == value,
        !line(key, value).contains('\n'),
        split::strip_return(line(key, value)) == line(key, value),
{
    reveal_strlit(" = ");
    reveal_strlit(" ");
    let whole = line(key, value);
    lemma_trimmed_ends(value);
    assert forall|j: int| 0 <= j < whole.len() implies #[trigger] whole[j] != '#' && whole[j]
        != '\n' by {
        if j < key.len() {
            assert(whole[j] == key[j]);
        } else if j >= key.len() + 3 {
            assert(whole[j] == value[j - key.len() - 3]);
        }
    }
    split::lemma_find_at(whole, '#', whole.len() as int);
    assert(whole.take(whole.len() as int) =~= whole);
    assert(whole.last() == value.last());
    assert(split::strip_return(whole) == whole);
    assert(split::trim(" "@ + value) == value) by {
        let padded = " "@ + value;
        split::lemma_trim_at(padded, 1, padded.len() as int);
        assert(padded.subrange(1, padded.len() as int) =~= value);
    }
    if key.len() > 0 {
        lemma_trimmed_ends(key);
        assert(whole[0] == key[0]);
        split::lemma_trim_at(whole, 0, whole.len() as int);
        assert(whole.subrange(0, whole.len() as int) =~= whole);
        let n = key.len() as int + 1;
        assert forall|j: int| 0 <= j < n implies #[trigger] whole[j] != '=' by {
            if j < key.len() {
                assert(whole[j] == key[j]);
            }
        }
        split::lemma_find_at(whole, '=', n);
        let front = whole.take(n);
        assert(front =~= key + seq![' ']);
        split::lemma_trim_at(front, 0, key.len() as int);
        assert(front.subrange(0, key.len() as int) =~= key);
        assert(whole.skip(n + 1) =~= " "@ + value);
    } else {
        split::lemma_trim_at(whole, 1, whole.len() as int);
        let e = whole.subrange(1, whole.len() as int);
        assert(e =~= seq!['='] + (" "@ + value));
        split::lemma_find_at(e, '=', 0);
        assert(e.take(0) =~= key);
        assert(e.skip(1) =~= " "@ + value);
    }
}

/// A comment says nothing.
pub proof fn lemma_comment(line: Seq<char>)
    requires
        line.len() > 0,
        line[0] == '#',
    ensures
        pair(line) is None,
        entry(line).len() == 0,
{
    split::lemma_find_at(line, '#', 0);
    assert(line.take(0) =~= seq![]);
    split::lemma_find(seq![], '=');
}

// ---------------------------------------------------------------------------
// Whole files
// ---------------------------------------------------------------------------

/// The lines one after the other, each with a line end.
pub open spec fn unlines(lines: Seq<Seq<char>>) -> Seq<char>
    decreases lines.len(),
{
    if lines.len() == 0 {
        seq![]
    } else {
        unlines(lines.drop_last()) + lines.last() + seq!['\n']
    }
}

/// A line that reads back as it was written.
pub open spec fn is_plain_line(line: Seq<char>) -> bool {
    !line.contains('\n') && split::strip_return(line) == line
}

pub open spec fn are_plain_lines(lines: Seq<Seq<char>>) -> bool {
    forall|i: int| 0 <= i < lines.len() ==> is_plain_line(#[trigger] lines[i])
}

proof fn lemma_unlines_front(lines: Seq<Seq<char>>)
    requires
        lines.len() > 0,
    ensures
        unlines(lines) == lines[0] + seq!['\n'] + unlines(lines.drop_first()),
    decreases lines.len(),
{
    if lines.len() == 1 {
        assert(unlines(lines.drop_last()) =~= seq![]);
        assert(unlines(lines.drop_first()) =~= seq![]);
        assert(unlines(lines) =~= lines[0] + seq!['\n'] + unlines(lines.drop_first()));
    } else {
        lemma_unlines_front(lines.drop_last());
        assert(lines.drop_last().drop_first() =~= lines.drop_first().drop_last());
        assert(lines.drop_first().last() == lines.last());
        let inner = unlines(lines.drop_first().drop_last());
        let tail = lines.last() + seq!['\n'];
        assert(unlines(lines.drop_first()) =~= inner + tail);
        assert(unlines(lines) =~= lines[0] + seq!['\n'] + inner + tail);
        assert(unlines(lines) =~= lines[0] + seq!['\n'] + unlines(lines.drop_first()));
    }
}

/// Plain lines read back as they were written.
pub proof fn lemma_lines_read_back(lines: Seq<Seq<char>>)
    requires
        are_plain_lines(lines),
    ensures
        split::lines(unlines(lines)) == lines,
    decreases lines.len(),
{
    if lines.len() == 0 {
        assert(split::lines(unlines(lines)) =~= lines);
    } else {
        lemma_unlines_front(lines);
        let first = lines[0];
        let rest = lines.drop_first();
        let s = unlines(lines);
        assert(is_plain_line(first));
        assert(are_plain_lines(rest)) by {
            assert forall|i: int| 0 <= i < rest.len() implies is_plain_line(#[trigger] rest[i]) by {
                assert(rest[i] == lines[i + 1]);
            }
        }
        assert forall|j: int| 0 <= j < first.len() implies #[trigger] s[j] != '\n' by {
            assert(s[j] == first[j]);
        }
        split::lemma_find_at(s, '\n', first.len() as int);
        assert(s.take(first.len() as int) =~= first);
        assert(s.skip(first.len() as int + 1) =~= unlines(rest));
        lemma_lines_read_back(rest);
        assert(split::lines(s) =~= lines);
    }
}

/// No line holds a line end.
pub proof fn lemma_lines_hold_no_line_end(s: Seq<char>)
    ensures
        forall|i: int|
            0 <= i < split::lines(s).len() ==> !(#[trigger] split::lines(s)[i]).contains('\n'),
    decreases s.len(),
{
    if s.len() > 0 {
        split::lemma_find(s, '\n');
        let n = split::find(s, '\n') as int;
        let all = split::lines(s);
        if n == s.len() {
            assert(!all[0].contains('\n'));
        } else {
            let rest = s.skip(n + 1);
            lemma_lines_hold_no_line_end(rest);
            assert forall|i: int| 0 <= i < all.len() implies !(#[trigger] all[i]).contains(
                '\n',
            ) by {
                if i == 0 {
                    let head = s.take(n);
                    assert(forall|j: int| 0 <= j < head.len() ==> head[j] == s[j]);
                    assert(!head.contains('\n'));
                } else {
                    assert(all[i] == split::lines(rest)[i - 1]);
                }
            }
        }
    }
}

proof fn lemma_part_contains(s: Seq<char>, from: int, to: int, c: char)
    requires
        0 <= from <= to <= s.len(),
        s.subrange(from, to).contains(c),
    ensures
        s.contains(c),
{
    let part = s.subrange(from, to);
    let i = choose|i: int| 0 <= i < part.len() && part[i] == c;
    assert(s[i + from] == c);
}

/// Trimming adds no character.
pub proof fn lemma_trim_contains(s: Seq<char>, c: char)
    requires
        split::trim(s).contains(c),
    ensures
        s.contains(c),
{
    split::lemma_trim(s);
    let (from, to) = choose|from: int, to: int|
        0 <= from <= to <= s.len() && split::trim(s) == #[trigger] s.subrange(from, to);
    lemma_part_contains(s, from, to, c);
}

/// The key of a line is one that a line can hold, and so is what follows it, once trimmed
/// and unless it is empty.
pub proof fn lemma_pair_parts(line: Seq<char>)
    requires
        !line.contains('\n'),
    ensures
        pair(line) matches Some((key, value)) ==> is_key(key) && (split::trim(value).len() > 0
            ==> is_value(split::trim(value))),
{
    if let Some((key, value)) = pair(line) {
        let hash = split::find(line, '#') as int;
        split::lemma_find(line, '#');
        let head = line.take(hash);
        let e = split::trim(head);
        split::lemma_find(e, '=');
        let n = split::find(e, '=') as int;
        let front = e.take(n);
        split::lemma_trim(front);
        split::lemma_trim(value);
        assert(!head.contains('#'));
        assert(front == e.subrange(0, n));
        assert(value =~= e.subrange(n + 1, e.len() as int));
        assert(head == line.subrange(0, hash));
        if key.contains('=') {
            lemma_trim_contains(front, '=');
            let i = choose|i: int| 0 <= i < front.len() && front[i] == '=';
            assert(e[i] == '=');
        }
        if key.contains('#') {
            lemma_trim_contains(front, '#');
            lemma_part_contains(e, 0, n, '#');
            lemma_trim_contains(head, '#');
        }
        if key.contains('\n') {
            lemma_trim_contains(front, '\n');
            lemma_part_contains(e, 0, n, '\n');
            lemma_trim_contains(head, '\n');
            lemma_part_contains(line, 0, hash, '\n');
        }
        if split::trim(value).contains('#') {
            lemma_trim_contains(value, '#');
            lemma_part_contains(e, n + 1, e.len() as int, '#');
            lemma_trim_contains(head, '#');
        }
        if split::trim(value).contains('\n') {
            lemma_trim_contains(value, '\n');
            lemma_part_contains(e, n + 1, e.len() as int, '\n');
            lemma_trim_contains(head, '\n');
            lemma_part_contains(line, 0, hash, '\n');
        }
    }
}

/// Adds a line and its line end to a text.
pub fn push_line(content: &mut String, line: &str)
    ensures
        final(content)@ == old(content)@ + line@ + seq!['\n'],
{
    content.append(line);
    content.push('\n');
    assert(content@ =~= old(content)@ + line@ + seq!['\n']);
}

/// A `#` ends what a line says, and white space around it does not count.
pub proof fn lemma_entry(said: Seq<char>, comment: Seq<char>)
    requires
        !said.contains('#'),
    ensures
        entry(said) == split::trim(said),
        entry(said + seq!['#'] + comment) == split::trim(said),
{
    let n = said.len() as int;
    let long = said + seq!['#'] + comment;
    assert forall|j: int| 0 <= j < n implies #[trigger] said[j] != '#' by {
        assert(said.contains(said[j]));
    }
    assert forall|j: int| 0 <= j < n implies #[trigger] long[j] != '#' by {
        assert(long[j] == said[j]);
    }
    assert(long[n] == '#');
    split::lemma_find_at(said, '#', n);
    split::lemma_find_at(long, '#', n);
    assert(said.take(n) =~= said);
    assert(long.take(n) =~= said);
}

/// The entries of a list are those of all its lines that are not empty, in the order of the
/// lines.
pub proof fn lemma_entries_in_order(a: Seq<Seq<char>>, b: Seq<Seq<char>>)
    ensures
        entries(a + b) == entries(a) + entries(b),
    decreases b.len(),
{
    if b.len() == 0 {
        assert(a + b =~= a);
        assert(entries(a) + entries(b) =~= entries(a));
    } else {
        lemma_entries_in_order(a, b.drop_last());
        assert((a + b).drop_last() =~= a + b.drop_last());
        assert((a + b).last() == b.last());
        assert(entries(a + b) =~= entries(a) + entries(b));
    }
}

/// Something is an entry of a list if and only if one of its lines says it.
pub proof fn lemma_is_entry(lines: Seq<Seq<char>>, wanted: Seq<char>)
    ensures
        entries(lines).contains(wanted) <==> wanted.len() > 0 && exists|i: int|
            0 <= i < lines.len() && entry(#[trigger] lines[i]) == wanted,
    decreases lines.len(),
{
    if lines.len() > 0 {
        let fewer = lines.drop_last();
        let rest = entries(fewer);
        let last = entry(lines.last());
        lemma_is_entry(fewer, wanted);
        assert(lines[lines.len() - 1] == lines.last());
        assert(forall|i: int| 0 <= i < fewer.len() ==> #[trigger] fewer[i] == lines[i]);
        if rest.contains(wanted) {
            let i = choose|i: int| 0 <= i < fewer.len() && entry(#[trigger] fewer[i]) == wanted;
            assert(entry(lines[i]) == wanted);
            let k = choose|k: int| 0 <= k < rest.len() && rest[k] == wanted;
            assert(entries(lines)[k] == wanted);
        }
        if last.len() > 0 {
            assert(entries(lines) == rest.push(last));
            assert(entries(lines)[rest.len() as int] == last);
        }
        if entries(lines).contains(wanted) && !rest.contains(wanted) {
            let k = choose|k: int| 0 <= k < entries(lines).len() && entries(lines)[k] == wanted;
            if k < rest.len() {
                assert(rest[k] == wanted);
            }
            assert(wanted == last);
        }
        if wanted.len() > 0 && exists|i: int| 0 <= i < lines.len() && entry(#[trigger] lines[i]) == wanted {
            let i = choose|i: int| 0 <= i < lines.len() && entry(#[trigger] lines[i]) == wanted;
            if i < fewer.len() {
                assert(entry(fewer[i]) == wanted);
            }
        }
    }
}

/// A line says what stands before its first `=` and what stands behind it, both without the
/// white space around them.
pub proof fn lemma_pair(key: Seq<char>, value: Seq<char>)
    requires
        !key.contains('='),
        !key.contains('#'),
        !value.contains('#'),
    ensures
        pair(key + seq!['='] + value) matches Some((k, v)) && k == split::trim(key) && split::trim(
            v,
        ) == split::trim(value),
{
    let line = key + seq!['='] + value;
    assert(!line.contains('#')) by {
        if line.contains('#') {
            let i = choose|i: int| 0 <= i < line.len() && line[i] == '#';
            if i < key.len() {
                assert(key[i] == '#');
            } else {
                assert(i > key.len());
                assert(value[i - key.len() - 1] == '#');
            }
        }
    }
    lemma_entry(line, Seq::empty());
    // The white space in front belongs to the key, and that at the end to the value.
    split::lemma_trim_start_part(key, seq!['='] + value);
    split::lemma_trim_end_part(split::trim_start(key) + seq!['='], value);
    let front = split::trim_start(key);
    let end = split::trim_end(value);
    let e = entry(line);
    assert(key + (seq!['='] + value) =~= line);
    assert(front + (seq!['='] + value) =~= front + seq!['='] + value);
    assert(e == front + seq!['='] + end);
    split::lemma_trim_start_is_suffix(key);
    let n = front.len() as int;
    assert forall|j: int| 0 <= j < n implies #[trigger] e[j] != '=' by {
        assert(e[j] == front[j]);
        assert(front[j] == key[j + key.len() - n]);
        assert(key.contains(front[j]));
    }
    assert(e[n] == '=');
    split::lemma_find_at(e, '=', n);
    assert(e.take(n) =~= front);
    assert(e.skip(n + 1) =~= end);
    split::lemma_trim_of_part(key);
    split::lemma_trim_of_part(value);
}

/// A line without a `=` before its comment says no pair.
pub proof fn lemma_no_pair(said: Seq<char>, comment: Seq<char>)
    requires
        !said.contains('#'),
        !said.contains('='),
    ensures
        pair(said) is None,
        pair(said + seq!['#'] + comment) is None,
{
    lemma_entry(said, comment);
    let e = split::trim(said);
    assert forall|j: int| 0 <= j < e.len() implies #[trigger] e[j] != '=' by {
        if e[j] == '=' {
            assert(e.contains('='));
            lemma_trim_contains(said, '=');
        }
    }
    split::lemma_find_at(e, '=', e.len() as int);
}

} // verus!
