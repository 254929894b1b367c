//! Which devboxes there are to watch.
use vstd::prelude::*;

use vstd::hash_set::StringHashSet;

use crate::config;
use crate::config::read_list_file;
use crate::glob;
use crate::glob::wildcard_matches;
use crate::json;
use crate::json::{Json, Tree, TreeNode};
use crate::paths;
use crate::paths::{expand_home, join};
use crate::split;
use crate::split::{index_of_space, split_lines, split_words, trimmed};
use crate::table;
use crate::table::sorted_set;
use crate::text;
use crate::text::{
    begins_with, chars_are_ignoring_case, same_ignoring_case, to_chars, to_lower, to_text,
};

verus! {

// ---------------------------------------------------------------------------
// The ignore list
// ---------------------------------------------------------------------------

/// One of the entries matches the host, whatever the case of their letters.
pub open spec fn ignored(host: Seq<char>, patterns: Seq<Seq<char>>) -> bool {
    exists|i: int|
        0 <= i < patterns.len() && glob::text_fits(
            text::lower(#[trigger] patterns[i]),
            text::lower(host),
        )
}

/// An entry matches a host literally, or as a glob when it contains `*` or `?`.
pub fn is_ignored(host: &str, patterns: &Vec<String>) -> (r: bool)
    ensures
        r == ignored(host@, split::texts(patterns@)),
{
    let ghost all = split::texts(patterns@);
    let lowered = to_lower(host);
    let mut i: usize = 0;
    while i < patterns.len()
        invariant
            i <= patterns@.len(),
            all == split::texts(patterns@),
            lowered@ == text::lower(host@),
            forall|j: int|
                0 <= j < i ==> !glob::text_fits(
                    text::lower(#[trigger] all[j]),
                    text::lower(host@),
                ),
        decreases patterns@.len() - i,
    {
        let pattern = to_lower(patterns[i].as_str());
        if wildcard_matches(pattern.as_str(), lowered.as_str()) {
            assert(glob::text_fits(text::lower(all[i as int]), text::lower(host@)));
            return true;
        }
        i += 1;
    }
    false
}

/// An entry without `*` and `?` is ignored literally: it matches the host of that name, and
/// not one whose name only begins with it.
pub proof fn lemma_literal_entry(host: Seq<char>, entry: Seq<char>)
    requires
        !entry.contains('*'),
        !entry.contains('?'),
    ensures
        ignored(host, seq![entry]) == (text::lower(host) == text::lower(entry)),
{
    let pattern = text::lower(entry);
    assert forall|c: char| (c == '*' || c == '?') implies !pattern.contains(c) by {
        if pattern.contains(c) {
            let i = choose|i: int| 0 <= i < pattern.len() && pattern[i] == c;
            assert(text::lower_char(entry[i]) == c);
            assert(entry[i] == c);
            assert(entry.contains(c));
        }
    }
    glob::lemma_literal_fits_only_itself(pattern, text::lower(host));
    let list = seq![entry];
    assert(list[0] == entry);
    if ignored(host, list) {
        let i = choose|i: int|
            0 <= i < list.len() && glob::text_fits(
                text::lower(#[trigger] list[i]),
                text::lower(host),
            );
        assert(i == 0);
    }
}

// ---------------------------------------------------------------------------
// SSH configuration
// ---------------------------------------------------------------------------

/// A line of SSH configuration: a keyword and what follows it.
pub open spec fn directive(line: Seq<char>) -> Option<(Seq<char>, Seq<char>)> {
    let s = split::trim(line);
    let n = split::find_space(s);
    if s.len() == 0 || s[0] == '#' || n == s.len() {
        None
    } else {
        Some((s.take(n as int), split::trim(s.skip(n as int))))
    }
}

/// A pattern stands for machines; only a plain name is one.
pub open spec fn is_plain_name(name: Seq<char>) -> bool {
    !"!"@.is_prefix_of(name) && !name.contains('*') && !name.contains('?') && !name.contains('[')
        && !name.contains(']')
}

/// A name that is watched without being asked for.
pub open spec fn is_dev_name(name: Seq<char>) -> bool {
    is_plain_name(name) && "dev"@.is_prefix_of(name)
}

/// The hosts that a line declares.
pub open spec fn hosts_on(line: Seq<char>) -> Seq<Seq<char>> {
    match directive(line) {
        Some((key, rest)) if text::lower(key) == text::lower("host"@) => split::words(rest).filter(
            |name: Seq<char>| is_dev_name(name),
        ),
        _ => Seq::empty(),
    }
}

/// The patterns of the files that a line includes.
pub open spec fn includes_on(line: Seq<char>) -> Seq<Seq<char>> {
    match directive(line) {
        Some((key, rest)) if text::lower(key) == text::lower("include"@) => split::words(rest),
        _ => Seq::empty(),
    }
}

/// The hosts that the lines declare.
pub open spec fn hosts_in(lines: Seq<Seq<char>>) -> Seq<Seq<char>>
    decreases lines.len(),
{
    if lines.len() == 0 {
        Seq::empty()
    } else {
        hosts_in(lines.drop_last()) + hosts_on(lines.last())
    }
}

/// The patterns of the files that the lines include.
pub open spec fn includes_in(lines: Seq<Seq<char>>) -> Seq<Seq<char>>
    decreases lines.len(),
{
    if lines.len() == 0 {
        Seq::empty()
    } else {
        includes_in(lines.drop_last()) + includes_on(lines.last())
    }
}

/// What a file of SSH configuration says.
pub struct SshFile {
    pub hosts: Vec<String>,
    /// The patterns of the files that it includes.
    pub includes: Vec<String>,
}

fn split_directive<'a>(line: &'a [char]) -> (r: Option<(&'a [char], &'a [char])>)
    ensures
        match r {
            Some((key, rest)) => directive(line@) == Some((key@, rest@)),
            None => directive(line@) is None,
        },
{
    let s = trimmed(line);
    let count: usize = s.len();
    if count == 0 || s[0] == '#' {
        return None;
    }
    let n: usize = index_of_space(s);
    if n == count {
        return None;
    }
    let key = vstd::slice::slice_subrange(s, 0, n);
    let rest = vstd::slice::slice_subrange(s, n, count);
    assert(key@ =~= s@.take(n as int));
    assert(rest@ =~= s@.skip(n as int));
    Some((key, trimmed(rest)))
}

fn holds(name: &[char], c: char) -> (r: bool)
    ensures
        r == name@.contains(c),
{
    let mut i: usize = 0;
    while i < name.len()
        invariant
            i <= name@.len(),
            forall|j: int| 0 <= j < i ==> #[trigger] name@[j] != c,
        decreases name@.len() - i,
    {
        if name[i] == c {
            assert(name@[i as int] == c);
            return true;
        }
        i += 1;
    }
    false
}

fn name_is_dev(name: &[char]) -> (r: bool)
    ensures
        r == is_dev_name(name@),
{
    let not = to_chars("!");
    let dev = to_chars("dev");
    !begins_with(name, not.as_slice()) && !holds(name, '*') && !holds(name, '?') && !holds(
        name,
        '[',
    ) && !holds(name, ']') && begins_with(name, dev.as_slice())
}

fn push_hosts(out: &mut Vec<String>, rest: &[char])
    ensures
        split::texts(final(out)@) == split::texts(old(out)@) + split::words(rest@).filter(
            |name: Seq<char>| is_dev_name(name),
        ),
{
    let ghost first = split::texts(out@);
    let ghost keep = |name: Seq<char>| is_dev_name(name);
    let words = split_words(rest);
    let ghost all = split::words(rest@);
    let mut i: usize = 0;
    reveal(Seq::filter);
    assert(all.take(0) =~= Seq::empty());
    assert(first + all.take(0).filter(keep) =~= first);
    while i < words.len()
        invariant
            i <= words@.len(),
            all == split::views(words@),
            forall|name: Seq<char>| #[trigger] keep(name) == is_dev_name(name),
            split::texts(out@) == first + all.take(i as int).filter(keep),
        decreases words@.len() - i,
    {
        let word = words[i];
        reveal(Seq::filter);
        proof {
            assert(all.take(i + 1).drop_last() =~= all.take(i as int));
            assert(all.take(i + 1).last() == word@);
            assert(keep(word@) == is_dev_name(word@));
        }
        if name_is_dev(word) {
            let ghost earlier = split::texts(out@);
            out.push(to_text(word));
            assert(split::texts(out@) =~= earlier.push(word@));
            assert(split::texts(out@) =~= first + all.take(i + 1).filter(keep));
        }
        i += 1;
    }
    assert(all.take(i as int) =~= all);
}

fn push_words(out: &mut Vec<String>, rest: &[char])
    ensures
        split::texts(final(out)@) == split::texts(old(out)@) + split::words(rest@),
{
    let ghost first = split::texts(out@);
    let words = split_words(rest);
    let ghost all = split::words(rest@);
    let mut i: usize = 0;
    assert(first + all.take(0) =~= first);
    while i < words.len()
        invariant
            i <= words@.len(),
            all == split::views(words@),
            split::texts(out@) == first + all.take(i as int),
        decreases words@.len() - i,
    {
        let ghost earlier = split::texts(out@);
        out.push(to_text(words[i]));
        i += 1;
        assert(split::texts(out@) =~= earlier.push(all[i - 1]));
        assert(split::texts(out@) =~= first + all.take(i as int));
    }
    assert(all.take(i as int) =~= all);
}

/// Reads a file of SSH configuration: the hosts it declares and the files it includes.
pub fn parse_ssh_file(content: &str) -> (r: SshFile)
    ensures
        split::texts(r.hosts@) == hosts_in(split::lines(content@)),
        split::texts(r.includes@) == includes_in(split::lines(content@)),
{
    let chars = to_chars(content);
    let lines = split_lines(chars.as_slice());
    let ghost every = split::lines(content@);
    let mut hosts: Vec<String> = Vec::new();
    let mut includes: Vec<String> = Vec::new();
    let mut i: usize = 0;
    assert(every.take(0) =~= Seq::empty());
    assert(split::texts(hosts@) =~= Seq::empty());
    assert(split::texts(includes@) =~= Seq::empty());
    while i < lines.len()
        invariant
            i <= lines@.len(),
            every == split::views(lines@),
            split::texts(hosts@) == hosts_in(every.take(i as int)),
            split::texts(includes@) == includes_in(every.take(i as int)),
        decreases lines@.len() - i,
    {
        proof {
            assert(every.take(i + 1).drop_last() =~= every.take(i as int));
            assert(every.take(i + 1).last() == lines@[i as int]@);
            assert(split::texts(hosts@) + Seq::<Seq<char>>::empty() =~= split::texts(hosts@));
            assert(split::texts(includes@) + Seq::<Seq<char>>::empty() =~= split::texts(includes@));
            lemma_keywords_differ();
        }
        if let Some((key, rest)) = split_directive(lines[i]) {
            if chars_are_ignoring_case(key, "include") {
                push_words(&mut includes, rest);
            } else if chars_are_ignoring_case(key, "host") {
                push_hosts(&mut hosts, rest);
            }
        }
        i += 1;
    }
    assert(every.take(i as int) =~= every);
    SshFile { hosts, includes }
}

proof fn lemma_keywords_differ()
    ensures
        text::lower("host"@) != text::lower("include"@),
{
    reveal_strlit("host");
    reveal_strlit("include");
    assert(text::lower("host"@).len() != text::lower("include"@).len());
}

/// Where an included file lies: below the directory of the file that includes it, unless it
/// is given in full.
pub open spec fn include_of(pattern: Seq<char>, directory: Seq<char>, home: Seq<char>) -> Seq<
    char,
> {
    paths::joined(directory, paths::home_expanded(pattern, home))
}

pub fn include_path(pattern: &str, directory: &str, home: &str) -> (r: String)
    ensures
        r@ == include_of(pattern@, directory@, home@),
{
    join(directory, expand_home(pattern, home).as_str())
}

/// Whether a path stands for several files.
pub fn has_wildcard(path: &str) -> (r: bool)
    ensures
        r == (path@.contains('*') || path@.contains('?')),
{
    let chars = to_chars(path);
    holds(chars.as_slice(), '*') || holds(chars.as_slice(), '?')
}

/// The names that fit a pattern, in ascending order.
pub open spec fn fitting(pattern: Seq<char>, names: Seq<Seq<char>>) -> Seq<Seq<char>> {
    table::sorted_keys(names.to_set().filter(|name: Seq<char>| glob::text_fits(pattern, name)))
}

/// The files of a directory that a pattern stands for, in ascending order.
pub fn expand_pattern(pattern: &str, names: &Vec<String>) -> (r: Vec<String>)
    ensures
        split::texts(r@) == fitting(pattern@, split::texts(names@)),
{
    let ghost all = split::texts(names@);
    let ghost wanted = |name: Seq<char>| glob::text_fits(pattern@, name);
    let mut kept: Vec<String> = Vec::new();
    let mut i: usize = 0;
    proof {
        assert(all.take(0).to_set() =~= Set::empty());
        assert(split::texts(kept@).to_set() =~= all.take(0).to_set().filter(wanted));
    }
    while i < names.len()
        invariant
            i <= names@.len(),
            all == split::texts(names@),
            forall|name: Seq<char>| #[trigger] wanted(name) == glob::text_fits(pattern@, name),
            split::texts(kept@).to_set() == all.take(i as int).to_set().filter(wanted),
        decreases names@.len() - i,
    {
        let ghost earlier = split::texts(kept@);
        let ghost name = all[i as int];
        proof {
            assert(all.take(i + 1) =~= all.take(i as int).push(name));
            table::lemma_to_set_push(all.take(i as int), name);
            assert(wanted(name) == glob::text_fits(pattern@, name));
        }
        if wildcard_matches(pattern, names[i].as_str()) {
            kept.push(names[i].clone());
            proof {
                assert(split::texts(kept@) =~= earlier.push(name));
                table::lemma_to_set_push(earlier, name);
                assert(all.take(i + 1).to_set().filter(wanted) =~= earlier.to_set().insert(name));
            }
        } else {
            assert(all.take(i + 1).to_set().filter(wanted) =~= earlier.to_set());
        }
        i += 1;
    }
    assert(all.take(i as int) =~= all);
    assert(all.to_set().filter(wanted) =~= all.to_set().filter(
        |name: Seq<char>| glob::text_fits(pattern@, name),
    ));
    sorted_set(&kept)
}

/// A walk through files of SSH configuration that include one another.
pub struct SshWalk {
    /// The files still to be looked at.
    pending: Vec<String>,
    /// The files that have been looked at.
    seen: StringHashSet,
    hosts: Vec<String>,
}

/// What a value of `SshWalk` says.
pub struct SshWalkView {
    pub pending: Seq<Seq<char>>,
    pub seen: Set<Seq<char>>,
    pub hosts: Seq<Seq<char>>,
}

impl View for SshWalk {
    type V = SshWalkView;

    closed spec fn view(&self) -> SshWalkView {
        SshWalkView {
            pending: split::texts(self.pending@),
            seen: self.seen@,
            hosts: split::texts(self.hosts@),
        }
    }
}

impl SshWalk {
    /// A walk that starts at a file.
    pub fn new(path: &str) -> (walk: Self)
        ensures
            walk@.pending == seq![path@],
            walk@.seen == Set::<Seq<char>>::empty(),
            walk@.hosts == Seq::<Seq<char>>::empty(),
    {
        let mut pending: Vec<String> = Vec::new();
        pending.push(path.to_owned());
        let walk = SshWalk { pending, seen: StringHashSet::new(), hosts: Vec::new() };
        assert(walk@.pending =~= seq![path@]);
        assert(walk@.hosts =~= Seq::empty());
        walk
    }

    /// The next file to look at.
    pub fn next(&mut self) -> (r: Option<String>)
        ensures
            final(self)@.seen == old(self)@.seen,
            final(self)@.hosts == old(self)@.hosts,
            match r {
                Some(path) => old(self)@.pending == final(self)@.pending.push(path@),
                None => old(self)@.pending.len() == 0 && final(self)@.pending.len() == 0,
            },
    {
        let ghost before = self.pending@;
        let r = self.pending.pop();
        proof {
            if let Some(path) = &r {
                assert(split::texts(before) =~= split::texts(self.pending@).push(path@));
            }
        }
        r
    }

    /// Notes that a file, by its real path, is being looked at; says whether this is the
    /// first time. A file that includes itself, by whatever way, is read once only.
    pub fn enter(&mut self, resolved: &str) -> (first: bool)
        ensures
            first == !old(self)@.seen.contains(resolved@),
            final(self)@ == (SshWalkView {
                seen: old(self)@.seen.insert(resolved@),
                ..old(self)@
            }),
    {
        self.seen.insert(resolved.to_owned())
    }

    /// Takes up the hosts that a file declares.
    pub fn note(&mut self, file: &SshFile)
        ensures
            final(self)@ == (SshWalkView {
                hosts: old(self)@.hosts + split::texts(file.hosts@),
                ..old(self)@
            }),
    {
        let ghost first = split::texts(self.hosts@);
        let ghost all = split::texts(file.hosts@);
        let ghost pending = self@.pending;
        let ghost seen = self@.seen;
        let mut i: usize = 0;
        assert(first + all.take(0) =~= first);
        while i < file.hosts.len()
            invariant
                i <= file.hosts@.len(),
                all == split::texts(file.hosts@),
                split::texts(self.hosts@) == first + all.take(i as int),
                self@.pending == pending,
                self@.seen == seen,
            decreases file.hosts@.len() - i,
        {
            let ghost earlier = split::texts(self.hosts@);
            self.hosts.push(file.hosts[i].clone());
            i += 1;
            assert(split::texts(self.hosts@) =~= earlier.push(all[i - 1]));
            assert(split::texts(self.hosts@) =~= first + all.take(i as int));
        }
        assert(all.take(i as int) =~= all);
    }

    /// Puts a file on the list of those to look at.
    pub fn follow(&mut self, path: String)
        ensures
            final(self)@ == (SshWalkView {
                pending: old(self)@.pending.push(path@),
                ..old(self)@
            }),
    {
        let ghost before = split::texts(self.pending@);
        self.pending.push(path);
        assert(split::texts(self.pending@) =~= before.push(path@));
    }

    /// The hosts found.
    pub fn into_hosts(self) -> (r: Vec<String>)
        ensures
            split::texts(r@) == self@.hosts,
    {
        self.hosts
    }
}

/// Files of SSH configuration as they lie on a disk: the real path of every path, and of
/// every real path that can be read the hosts it declares and the files it includes.
pub struct SshDisk {
    pub resolve: spec_fn(Seq<char>) -> Seq<char>,
    pub files: Map<Seq<char>, (Seq<Seq<char>>, Seq<Seq<char>>)>,
}

impl SshDisk {
    /// A file that is included from another one, over so many steps at most.
    pub open spec fn reaches(self, start: Seq<char>, file: Seq<char>, steps: nat) -> bool
        decreases steps,
    {
        if steps == 0 {
            file == (self.resolve)(start)
        } else {
            ||| self.reaches(start, file, (steps - 1) as nat)
            ||| exists|from: Seq<char>, i: int|
                #![trigger self.files[from].1[i]]
                {
                    &&& self.files.dom().contains(from)
                    &&& self.reaches(start, from, (steps - 1) as nat)
                    &&& 0 <= i < self.files[from].1.len()
                    &&& (self.resolve)(self.files[from].1[i]) == file
                }
        }
    }

    /// A file that is included, directly or through others.
    pub open spec fn reachable(self, start: Seq<char>, file: Seq<char>) -> bool {
        exists|steps: nat| self.reaches(start, file, steps)
    }

    /// A host that a file declares.
    pub open spec fn declares(self, file: Seq<char>, host: Seq<char>) -> bool {
        self.files.dom().contains(file) && self.files[file].0.contains(host)
    }

    /// What a walk does with the path it takes up next: a file that is met for the first time
    /// is noted, and what it includes is followed.
    pub open spec fn stride(self, walk: SshWalkView) -> SshWalkView {
        let file = (self.resolve)(walk.pending.last());
        let rest = walk.pending.drop_last();
        if walk.seen.contains(file) {
            SshWalkView { pending: rest, ..walk }
        } else if self.files.dom().contains(file) {
            SshWalkView {
                pending: rest + self.files[file].1,
                seen: walk.seen.insert(file),
                hosts: walk.hosts + self.files[file].0,
            }
        } else {
            SshWalkView { pending: rest, seen: walk.seen.insert(file), hosts: walk.hosts }
        }
    }

    /// The walk is on its way: it has met only files that can be reached, has the hosts of
    /// those it has met, and has what they include either met or still before it.
    pub open spec fn underway(self, start: Seq<char>, walk: SshWalkView) -> bool {
        &&& forall|file: Seq<char>| #[trigger]
            walk.seen.contains(file) ==> self.reachable(start, file)
        &&& forall|i: int|
            0 <= i < walk.pending.len() ==> self.reachable(
                start,
                (self.resolve)(#[trigger] walk.pending[i]),
            )
        &&& walk.seen.contains((self.resolve)(start)) || walk.pending.contains(start)
        &&& forall|from: Seq<char>, i: int|
            #![trigger self.files[from].1[i]]
            walk.seen.contains(from) && self.files.dom().contains(from) && 0 <= i
                < self.files[from].1.len() ==> walk.seen.contains(
                (self.resolve)(self.files[from].1[i]),
            ) || walk.pending.contains(self.files[from].1[i])
        &&& forall|host: Seq<char>| #[trigger]
            walk.hosts.contains(host) <==> exists|file: Seq<char>|
                walk.seen.contains(file) && #[trigger] self.declares(file, host)
    }
}

/// A walk that has just begun is on its way.
pub proof fn lemma_walk_begins(disk: SshDisk, start: Seq<char>, walk: SshWalkView)
    requires
        walk.pending == seq![start],
        walk.seen == Set::<Seq<char>>::empty(),
        walk.hosts == Seq::<Seq<char>>::empty(),
    ensures
        disk.underway(start, walk),
{
    assert(disk.reaches(start, (disk.resolve)(start), 0));
    assert(walk.pending[0] == start);
}

proof fn lemma_reachable_next(disk: SshDisk, start: Seq<char>, from: Seq<char>, i: int)
    requires
        disk.reachable(start, from),
        disk.files.dom().contains(from),
        0 <= i < disk.files[from].1.len(),
    ensures
        disk.reachable(start, (disk.resolve)(disk.files[from].1[i])),
{
    let steps = choose|steps: nat| disk.reaches(start, from, steps);
    assert(disk.reaches(start, (disk.resolve)(disk.files[from].1[i]), steps + 1));
}

/// A walk that is on its way stays so.
pub proof fn lemma_walk_goes_on(disk: SshDisk, start: Seq<char>, walk: SshWalkView)
    requires
        disk.underway(start, walk),
        walk.pending.len() > 0,
    ensures
        disk.underway(start, disk.stride(walk)),
{
    let next = disk.stride(walk);
    let path = walk.pending.last();
    let file = (disk.resolve)(path);
    let rest = walk.pending.drop_last();
    assert(walk.pending[walk.pending.len() - 1] == path);
    assert(disk.reachable(start, file));
    assert(next.seen.contains(file));
    assert(forall|r: Seq<char>| walk.seen.contains(r) ==> #[trigger] next.seen.contains(r));
    let fresh = !walk.seen.contains(file) && disk.files.dom().contains(file);
    let more = if fresh {
        disk.files[file].1
    } else {
        Seq::empty()
    };
    assert(next.pending =~= rest + more);
    assert forall|i: int| 0 <= i < next.pending.len() implies disk.reachable(
        start,
        (disk.resolve)(#[trigger] next.pending[i]),
    ) by {
        if i < rest.len() {
            assert(next.pending[i] == walk.pending[i]);
        } else {
            assert(next.pending[i] == disk.files[file].1[i - rest.len()]);
            lemma_reachable_next(disk, start, file, i - rest.len());
        }
    }
    assert forall|p: Seq<char>| #[trigger] walk.pending.contains(p) implies next.seen.contains(
        (disk.resolve)(p),
    ) || next.pending.contains(p) by {
        let i = choose|i: int| 0 <= i < walk.pending.len() && walk.pending[i] == p;
        if i < rest.len() {
            assert(next.pending[i] == p);
        }
    }
    assert forall|from: Seq<char>, i: int|
        #![trigger disk.files[from].1[i]]
        next.seen.contains(from) && disk.files.dom().contains(from) && 0 <= i
            < disk.files[from].1.len() implies next.seen.contains(
        (disk.resolve)(disk.files[from].1[i]),
    ) || next.pending.contains(disk.files[from].1[i]) by {
        if !walk.seen.contains(from) {
            assert(from == file);
            assert(next.pending[rest.len() + i] == disk.files[from].1[i]);
        }
    }
    assert forall|host: Seq<char>| #[trigger] next.hosts.contains(host) <==> exists|r: Seq<char>|
        next.seen.contains(r) && #[trigger] disk.declares(r, host) by {
        if fresh {
            lemma_joined_set(walk.hosts, disk.files[file].0);
            assert(next.hosts.to_set().contains(host) == (walk.hosts.to_set().contains(host)
                || disk.files[file].0.to_set().contains(host)));
        }
        if walk.hosts.contains(host) {
            let r = choose|r: Seq<char>| walk.seen.contains(r) && #[trigger] disk.declares(r, host);
            assert(next.seen.contains(r) && disk.declares(r, host));
        }
        if fresh && disk.files[file].0.contains(host) {
            assert(next.seen.contains(file) && disk.declares(file, host));
        }
        if exists|r: Seq<char>| next.seen.contains(r) && #[trigger] disk.declares(r, host) {
            let r = choose|r: Seq<char>| next.seen.contains(r) && #[trigger] disk.declares(r, host);
            if walk.seen.contains(r) {
                assert(walk.hosts.contains(host));
            }
        }
    }
}

proof fn lemma_all_met(
    disk: SshDisk,
    start: Seq<char>,
    walk: SshWalkView,
    file: Seq<char>,
    steps: nat,
)
    requires
        disk.underway(start, walk),
        walk.pending.len() == 0,
        disk.reaches(start, file, steps),
    ensures
        walk.seen.contains(file),
    decreases steps,
{
    if steps > 0 {
        if disk.reaches(start, file, (steps - 1) as nat) {
            lemma_all_met(disk, start, walk, file, (steps - 1) as nat);
        } else {
            let (from, i) = choose|from: Seq<char>, i: int|
                #![trigger disk.files[from].1[i]]
                {
                    &&& disk.files.dom().contains(from)
                    &&& disk.reaches(start, from, (steps - 1) as nat)
                    &&& 0 <= i < disk.files[from].1.len()
                    &&& (disk.resolve)(disk.files[from].1[i]) == file
                };
            lemma_all_met(disk, start, walk, from, (steps - 1) as nat);
        }
    }
}

/// A walk that has come to its end has found the hosts of exactly those files that are
/// included from its start, however the files include one another.
pub proof fn lemma_walk_finds_all(
    disk: SshDisk,
    start: Seq<char>,
    walk: SshWalkView,
    host: Seq<char>,
)
    requires
        disk.underway(start, walk),
        walk.pending.len() == 0,
    ensures
        walk.hosts.contains(host) <==> exists|file: Seq<char>|
            disk.reachable(start, file) && #[trigger] disk.declares(file, host),
{
    if walk.hosts.contains(host) {
        let file = choose|file: Seq<char>|
            walk.seen.contains(file) && #[trigger] disk.declares(file, host);
        assert(disk.reachable(start, file) && disk.declares(file, host));
    }
    if exists|file: Seq<char>| disk.reachable(start, file) && #[trigger] disk.declares(file, host) {
        let file = choose|file: Seq<char>|
            disk.reachable(start, file) && #[trigger] disk.declares(file, host);
        let steps = choose|steps: nat| disk.reaches(start, file, steps);
        lemma_all_met(disk, start, walk, file, steps);
        assert(walk.seen.contains(file) && disk.declares(file, host));
    }
}

// ---------------------------------------------------------------------------
// Coder workspaces
// ---------------------------------------------------------------------------

/// The alias of a workspace that is running and is called `dev…`.
pub open spec fn alias_of(workspace: Tree) -> Option<Seq<char>> {
    let name = text::or_empty(workspace.text_at("name"@));
    let status = match workspace.get("latest_build"@) {
        Some(build) => text::or_empty(build.text_at("status"@)),
        None => Seq::empty(),
    };
    if "dev"@.is_prefix_of(name) && text::lower(status) == text::lower("running"@) {
        Some("coder."@ + name)
    } else {
        None
    }
}

/// The aliases of the workspaces.
pub open spec fn aliases_of(workspaces: Seq<Tree>) -> Set<Seq<char>>
    decreases workspaces.len(),
{
    if workspaces.len() == 0 {
        Set::empty()
    } else {
        let earlier = aliases_of(workspaces.drop_last());
        match alias_of(workspaces.last()) {
            Some(alias) => earlier.insert(alias),
            None => earlier,
        }
    }
}

/// The aliases of the workspaces in a list of them, in ascending order.
pub open spec fn coder_hosts_in(list: Tree) -> Seq<Seq<char>> {
    match list.node {
        TreeNode::Array(workspaces) => table::sorted_keys(aliases_of(workspaces)),
        _ => Seq::empty(),
    }
}

fn workspace_alias(workspace: &Json) -> (r: Option<String>)
    ensures
        match r {
            Some(alias) => alias_of(workspace@) == Some(alias@),
            None => alias_of(workspace@) is None,
        },
{
    let name = match workspace.text_at("name") {
        Some(name) => name.clone(),
        None => String::new(),
    };
    let status = match workspace.get("latest_build") {
        Some(build) => match build.text_at("status") {
            Some(status) => status.clone(),
            None => String::new(),
        },
        None => String::new(),
    };
    let chars = to_chars(name.as_str());
    let dev = to_chars("dev");
    if begins_with(chars.as_slice(), dev.as_slice()) && same_ignoring_case(
        status.as_str(),
        "running",
    ) {
        let mut alias = "coder.".to_owned();
        alias.append(name.as_str());
        Some(alias)
    } else {
        None
    }
}

/// The aliases of the running `dev…` workspaces in what Coder lists.
pub fn coder_hosts_from_json(value: &Json) -> (r: Vec<String>)
    ensures
        split::texts(r@) == coder_hosts_in(value@),
{
    let mut found: Vec<String> = Vec::new();
    let workspaces = match value.items() {
        Some(workspaces) => workspaces,
        None => {
            assert(split::texts(found@) =~= coder_hosts_in(value@));
            return found;
        },
    };
    let ghost all = json::trees(workspaces@);
    let mut i: usize = 0;
    assert(all.take(0) =~= Seq::empty());
    assert(split::texts(found@).to_set() =~= Set::empty());
    while i < workspaces.len()
        invariant
            i <= workspaces@.len(),
            all == json::trees(workspaces@),
            split::texts(found@).to_set() == aliases_of(all.take(i as int)),
        decreases workspaces@.len() - i,
    {
        proof {
            assert(all.take(i + 1).drop_last() =~= all.take(i as int));
            assert(all.take(i + 1).last() == workspaces@[i as int]@);
        }
        if let Some(alias) = workspace_alias(&workspaces[i]) {
            let ghost earlier = split::texts(found@);
            found.push(alias);
            proof {
                assert(split::texts(found@) =~= earlier.push(alias@));
                table::lemma_to_set_push(earlier, alias@);
            }
        }
        i += 1;
    }
    assert(all.take(i as int) =~= all);
    sorted_set(&found)
}

/// The aliases in what the `coder` command printed; none where that cannot be read.
pub fn coder_hosts(output: &[u8]) -> (r: Vec<String>)
    ensures
        split::texts(r@) == match json::parsed_bytes(output@) {
            Some(list) => coder_hosts_in(list),
            None => Seq::empty(),
        },
{
    match json::read_bytes(output) {
        Some(list) => coder_hosts_from_json(&list),
        None => {
            let none: Vec<String> = Vec::new();
            assert(split::texts(none@) =~= Seq::empty());
            none
        },
    }
}

// ---------------------------------------------------------------------------
// All sources together
// ---------------------------------------------------------------------------

/// The entries of a list file that may be missing.
pub open spec fn listed(content: Option<Seq<char>>) -> Seq<Seq<char>> {
    match content {
        Some(content) => config::entries(split::lines(content)),
        None => Seq::empty(),
    }
}

/// The hosts of every source, without the ignored ones.
pub open spec fn discovered(
    hosts_file: Option<Seq<char>>,
    ssh_hosts: Seq<Seq<char>>,
    coder_hosts: Seq<Seq<char>>,
    ignore_file: Option<Seq<char>>,
) -> Set<Seq<char>> {
    let found = (listed(hosts_file) + ssh_hosts + coder_hosts).to_set();
    found.filter(|host: Seq<char>| !ignored(host, listed(ignore_file)))
}

fn read_optional(content: Option<&str>) -> (r: Vec<String>)
    ensures
        split::texts(r@) == listed(text::given(content)),
{
    match content {
        Some(content) => read_list_file(content),
        None => {
            let none: Vec<String> = Vec::new();
            assert(split::texts(none@) =~= Seq::empty());
            none
        },
    }
}

fn push_kept(out: &mut Vec<String>, hosts: &Vec<String>, patterns: &Vec<String>)
    ensures
        split::texts(final(out)@).to_set() == split::texts(old(out)@).to_set().union(
            split::texts(hosts@).to_set().filter(
                |host: Seq<char>| !ignored(host, split::texts(patterns@)),
            ),
        ),
{
    let ghost first = split::texts(out@).to_set();
    let ghost all = split::texts(hosts@);
    let ghost keep = |host: Seq<char>| !ignored(host, split::texts(patterns@));
    let mut i: usize = 0;
    proof {
        assert(all.take(0).to_set() =~= Set::empty());
        assert(first.union(all.take(0).to_set().filter(keep)) =~= first);
    }
    while i < hosts.len()
        invariant
            i <= hosts@.len(),
            all == split::texts(hosts@),
            forall|host: Seq<char>| #[trigger]
                keep(host) == !ignored(host, split::texts(patterns@)),
            split::texts(out@).to_set() == first.union(all.take(i as int).to_set().filter(keep)),
        decreases hosts@.len() - i,
    {
        let ghost earlier = split::texts(out@);
        let ghost host = all[i as int];
        proof {
            assert(all.take(i + 1) =~= all.take(i as int).push(host));
            table::lemma_to_set_push(all.take(i as int), host);
            assert(keep(host) == !ignored(host, split::texts(patterns@)));
        }
        if !is_ignored(hosts[i].as_str(), patterns) {
            out.push(hosts[i].clone());
            proof {
                assert(split::texts(out@) =~= earlier.push(host));
                table::lemma_to_set_push(earlier, host);
                assert(first.union(all.take(i + 1).to_set().filter(keep))
                    =~= earlier.to_set().insert(host));
            }
        } else {
            assert(first.union(all.take(i + 1).to_set().filter(keep)) =~= earlier.to_set());
        }
        i += 1;
    }
    assert(all.take(i as int) =~= all);
    assert(all.to_set().filter(keep) =~= all.to_set().filter(
        |host: Seq<char>| !ignored(host, split::texts(patterns@)),
    ));
}

/// The hosts to watch: those of the hosts file, of the SSH configuration and of Coder. The
/// ignore list is applied last so that it can suppress any source.
pub fn discover_hosts(
    hosts_file: Option<&str>,
    ssh_hosts: &Vec<String>,
    coder_hosts: &Vec<String>,
    ignore_file: Option<&str>,
) -> (r: Vec<String>)
    ensures
        split::texts(r@) == table::sorted_keys(
            discovered(
                text::given(hosts_file),
                split::texts(ssh_hosts@),
                split::texts(coder_hosts@),
                text::given(ignore_file),
            ),
        ),
{
    let own = read_optional(hosts_file);
    let patterns = read_optional(ignore_file);
    let mut kept: Vec<String> = Vec::new();
    assert(split::texts(kept@).to_set() =~= Set::empty());
    push_kept(&mut kept, &own, &patterns);
    push_kept(&mut kept, ssh_hosts, &patterns);
    push_kept(&mut kept, coder_hosts, &patterns);
    proof {
        let a = split::texts(own@);
        let b = split::texts(ssh_hosts@);
        let c = split::texts(coder_hosts@);
        let all = discovered(text::given(hosts_file), b, c, text::given(ignore_file));
        lemma_joined_set(a, b);
        lemma_joined_set(a + b, c);
        assert(split::texts(kept@).to_set() =~= all);
    }
    sorted_set(&kept)
}

proof fn lemma_joined_set(a: Seq<Seq<char>>, b: Seq<Seq<char>>)
    ensures
        (a + b).to_set() == a.to_set().union(b.to_set()),
{
    let all = a + b;
    assert forall|x: Seq<char>| all.to_set().contains(x) == a.to_set().union(
        b.to_set(),
    ).contains(x) by {
        if all.contains(x) {
            let i = choose|i: int| 0 <= i < all.len() && all[i] == x;
            if i < a.len() {
                assert(a[i] == x);
            } else {
                assert(b[i - a.len()] == x);
            }
        }
        if a.contains(x) {
            let i = choose|i: int| 0 <= i < a.len() && a[i] == x;
            assert(all[i] == x);
        }
        if b.contains(x) {
            let i = choose|i: int| 0 <= i < b.len() && b[i] == x;
            assert(all[i + a.len()] == x);
        }
    }
    assert(all.to_set() =~= a.to_set().union(b.to_set()));
}

/// No source brings back a host that is on the ignore list, and no host is lost for another
/// reason.
pub proof fn lemma_ignored_hosts_stay_out(
    hosts_file: Option<Seq<char>>,
    ssh_hosts: Seq<Seq<char>>,
    coder_hosts: Seq<Seq<char>>,
    ignore_file: Option<Seq<char>>,
    host: Seq<char>,
)
    ensures
        table::sorted_keys(
            discovered(hosts_file, ssh_hosts, coder_hosts, ignore_file),
        ).contains(host) == ((listed(hosts_file).contains(host) || ssh_hosts.contains(host)
            || coder_hosts.contains(host)) && !ignored(host, listed(ignore_file))),
{
    let a = listed(hosts_file);
    let found = discovered(hosts_file, ssh_hosts, coder_hosts, ignore_file);
    lemma_joined_set(a, ssh_hosts);
    lemma_joined_set(a + ssh_hosts, coder_hosts);
    let all = (a + ssh_hosts + coder_hosts).to_set();
    vstd::seq_lib::seq_to_set_is_finite(a + ssh_hosts + coder_hosts);
    assert(found.finite()) by {
        vstd::set_lib::lemma_len_subset(found, all);
    }
    table::lemma_sorted_keys_exist(found);
    let sorted = table::sorted_keys(found);
    assert(sorted.contains(host) == sorted.to_set().contains(host));
    assert(a.to_set().contains(host) == a.contains(host));
    assert(ssh_hosts.to_set().contains(host) == ssh_hosts.contains(host));
    assert(coder_hosts.to_set().contains(host) == coder_hosts.contains(host));
}

/// The hosts to watch, each once and in ascending order. Hosts named explicitly win over
/// discovery, and bypass the ignore list. `None` means nothing to watch.
pub fn resolve_hosts(explicit: &Vec<String>, discovered: &Vec<String>) -> (r: Option<Vec<String>>)
    ensures
        match r {
            Some(hosts) => {
                &&& split::texts(hosts@).len() > 0
                &&& split::texts(hosts@) == table::sorted_keys(
                    split::texts(
                        if explicit@.len() > 0 {
                            explicit@
                        } else {
                            discovered@
                        },
                    ).to_set(),
                )
            },
            None => explicit@.len() == 0 && discovered@.len() == 0,
        },
{
    let chosen = if explicit.len() > 0 {
        explicit
    } else {
        discovered
    };
    let hosts = sorted_set(chosen);
    if hosts.len() == 0 {
        proof {
            let all = split::texts(chosen@);
            vstd::seq_lib::seq_to_set_is_finite(all);
            table::lemma_sorted_keys_exist(all.to_set());
            let sorted = table::sorted_keys(all.to_set());
            assert(split::texts(hosts@).len() == 0);
            if all.len() > 0 {
                assert(all.contains(all[0]));
                assert(sorted.to_set().contains(all[0]));
            }
        }
        return None;
    }
    assert(split::texts(hosts@).len() == hosts@.len());
    Some(hosts)
}

/// What is said where there is nothing to watch.
pub fn no_hosts_message(config_dir: &str) -> (r: String)
    ensures
        r@ == "No dev* SSH aliases found. Add hosts to "@ + paths::joined(config_dir@, "hosts"@)
            + "."@,
{
    let mut out = "No dev* SSH aliases found. Add hosts to ".to_owned();
    out.append(join(config_dir, "hosts").as_str());
    out.append(".");
    out
}

// ---------------------------------------------------------------------------
// What is found where
// ---------------------------------------------------------------------------

/// A line of SSH configuration is a keyword, in any case, and words behind it.
pub open spec fn says(line: Seq<char>, keyword: Seq<char>, word: Seq<char>) -> bool {
    exists|j: int|
        1 <= j < split::words(line).len() && text::lower(split::words(line)[0]) == keyword
            && #[trigger] split::words(line)[j] == word
}

proof fn lemma_directive(line: Seq<char>)
    ensures
        match directive(line) {
            Some((key, rest)) => split::words(line) == seq![key] + split::words(rest),
            None => split::words(line).len() < 2 || split::words(line)[0][0] == '#',
        },
        directive(line) matches Some((key, rest)) ==> key.len() > 0 && key[0] != '#',
{
    let s = split::trim(line);
    let n = split::find_space(s) as int;
    split::lemma_trim(line);
    split::lemma_words_of_trimmed(line);
    if s.len() > 0 {
        split::lemma_find_space(s);
        assert(n > 0);
        assert(split::words(s) == seq![s.take(n)] + split::words(s.skip(n)));
        split::lemma_words_of_trimmed(s.skip(n));
        assert(s.take(n)[0] == s[0]);
        if n == s.len() {
            let none = s.skip(n);
            assert(none.len() == 0);
            assert(split::words(none) =~= Seq::empty());
        }
    }
}

proof fn lemma_filtered(names: Seq<Seq<char>>, name: Seq<char>)
    ensures
        names.filter(|name: Seq<char>| is_dev_name(name)).contains(name) <==> names.contains(name)
            && is_dev_name(name),
    decreases names.len(),
{
    reveal(Seq::filter);
    let keep = |name: Seq<char>| is_dev_name(name);
    if names.len() > 0 {
        let fewer = names.drop_last();
        let kept = fewer.filter(keep);
        let last = names.last();
        lemma_filtered(fewer, name);
        assert(fewer.push(last) =~= names);
        table::lemma_to_set_push(fewer, last);
        assert(names.to_set().contains(name) == (fewer.to_set().contains(name) || name == last));
        if is_dev_name(last) {
            assert(names.filter(keep) == kept.push(last));
            table::lemma_to_set_push(kept, last);
            assert(kept.push(last).to_set().contains(name) == (kept.to_set().contains(name) || name
                == last));
        }
    }
}

proof fn lemma_hosts_on(line: Seq<char>, name: Seq<char>)
    ensures
        hosts_on(line).contains(name) <==> says(line, "host"@, name) && is_dev_name(name),
{
    reveal_strlit("host");
    assert(text::lower("host"@) =~= "host"@);
    lemma_directive(line);
    let all = split::words(line);
    match directive(line) {
        Some((key, rest)) => {
            let words = split::words(rest);
            lemma_filtered(words, name);
            assert(all[0] == key);
            if words.contains(name) && text::lower(key) == "host"@ {
                let k = choose|k: int| 0 <= k < words.len() && words[k] == name;
                assert(all[k + 1] == name);
                assert(says(line, "host"@, name));
            }
            if says(line, "host"@, name) {
                let j = choose|j: int|
                    1 <= j < all.len() && text::lower(all[0]) == "host"@ && #[trigger] all[j]
                        == name;
                assert(words[j - 1] == name);
            }
        },
        None => {
            if says(line, "host"@, name) {
                assert(text::lower(all[0])[0] == 'h');
                assert(text::lower(all[0]).len() == all[0].len());
            }
        },
    }
}

proof fn lemma_includes_on(line: Seq<char>, pattern: Seq<char>)
    ensures
        includes_on(line).contains(pattern) <==> says(line, "include"@, pattern),
{
    reveal_strlit("include");
    assert(text::lower("include"@) =~= "include"@);
    lemma_directive(line);
    let all = split::words(line);
    match directive(line) {
        Some((key, rest)) => {
            let words = split::words(rest);
            assert(all[0] == key);
            if words.contains(pattern) && text::lower(key) == "include"@ {
                let k = choose|k: int| 0 <= k < words.len() && words[k] == pattern;
                assert(all[k + 1] == pattern);
                assert(says(line, "include"@, pattern));
            }
            if says(line, "include"@, pattern) {
                let j = choose|j: int|
                    1 <= j < all.len() && text::lower(all[0]) == "include"@ && #[trigger] all[j]
                        == pattern;
                assert(words[j - 1] == pattern);
            }
        },
        None => {
            if says(line, "include"@, pattern) {
                assert(text::lower(all[0])[0] == 'i');
                assert(text::lower(all[0]).len() == all[0].len());
            }
        },
    }
}

/// A name is among the hosts of an SSH file if and only if one of its lines, whichever it is,
/// begins with `Host` in any case and has the name among its further words, and the name begins
/// with `dev` and stands for one machine.
pub proof fn lemma_ssh_hosts(lines: Seq<Seq<char>>, name: Seq<char>)
    ensures
        hosts_in(lines).contains(name) <==> (exists|i: int|
            0 <= i < lines.len() && says(#[trigger] lines[i], "host"@, name)) && name.len() >= 3
            && name[0] == 'd' && name[1] == 'e' && name[2] == 'v' && !name.contains('*')
            && !name.contains('?') && !name.contains('[') && !name.contains(']'),
    decreases lines.len(),
{
    reveal_strlit("dev");
    reveal_strlit("!");
    assert("dev"@.is_prefix_of(name) <==> name.len() >= 3 && name[0] == 'd' && name[1] == 'e'
        && name[2] == 'v') by {
        if name.len() >= 3 && name[0] == 'd' && name[1] == 'e' && name[2] == 'v' {
            assert("dev"@ =~= name.subrange(0, 3));
        }
        if "dev"@.is_prefix_of(name) {
            assert("dev"@[0] == name[0] && "dev"@[1] == name[1] && "dev"@[2] == name[2]);
        }
    }
    if name.len() > 0 && name[0] == 'd' {
        assert(!"!"@.is_prefix_of(name)) by {
            if "!"@.is_prefix_of(name) {
                assert("!"@[0] == name[0]);
            }
        }
    }
    if lines.len() > 0 {
        let fewer = lines.drop_last();
        let earlier = hosts_in(fewer);
        let here = hosts_on(lines.last());
        lemma_ssh_hosts(fewer, name);
        lemma_hosts_on(lines.last(), name);
        assert(forall|i: int| 0 <= i < fewer.len() ==> #[trigger] fewer[i] == lines[i]);
        assert(lines[lines.len() - 1] == lines.last());
        if earlier.contains(name) {
            let i = choose|i: int| 0 <= i < fewer.len() && says(#[trigger] fewer[i], "host"@, name);
            assert(says(lines[i], "host"@, name));
        }
        if exists|i: int| 0 <= i < lines.len() && says(#[trigger] lines[i], "host"@, name) {
            let i = choose|i: int| 0 <= i < lines.len() && says(#[trigger] lines[i], "host"@, name);
            if i < fewer.len() {
                assert(says(fewer[i], "host"@, name));
            }
        }
        lemma_contains_sum(earlier, here, name);
    }
}

proof fn lemma_contains_sum(a: Seq<Seq<char>>, b: Seq<Seq<char>>, x: Seq<char>)
    ensures
        (a + b).contains(x) == (a.contains(x) || b.contains(x)),
{
    let all = a + b;
    if a.contains(x) {
        let i = choose|i: int| 0 <= i < a.len() && a[i] == x;
        assert(all[i] == x);
    }
    if b.contains(x) {
        let i = choose|i: int| 0 <= i < b.len() && b[i] == x;
        assert(all[a.len() + i] == x);
    }
    if all.contains(x) {
        let i = choose|i: int| 0 <= i < all.len() && all[i] == x;
        if i < a.len() {
            assert(a[i] == x);
        } else {
            assert(b[i - a.len()] == x);
        }
    }
}

/// A pattern is among those that an SSH file includes if and only if one of its lines begins
/// with `Include` in any case and has the pattern among its further words.
pub proof fn lemma_ssh_includes(lines: Seq<Seq<char>>, pattern: Seq<char>)
    ensures
        includes_in(lines).contains(pattern) <==> exists|i: int|
            0 <= i < lines.len() && says(#[trigger] lines[i], "include"@, pattern),
    decreases lines.len(),
{
    if lines.len() > 0 {
        let fewer = lines.drop_last();
        lemma_ssh_includes(fewer, pattern);
        lemma_includes_on(lines.last(), pattern);
        assert(forall|i: int| 0 <= i < fewer.len() ==> #[trigger] fewer[i] == lines[i]);
        assert(lines[lines.len() - 1] == lines.last());
        if includes_in(fewer).contains(pattern) {
            let i = choose|i: int|
                0 <= i < fewer.len() && says(#[trigger] fewer[i], "include"@, pattern);
            assert(says(lines[i], "include"@, pattern));
        }
        if exists|i: int| 0 <= i < lines.len() && says(#[trigger] lines[i], "include"@, pattern) {
            let i = choose|i: int|
                0 <= i < lines.len() && says(#[trigger] lines[i], "include"@, pattern);
            if i < fewer.len() {
                assert(says(fewer[i], "include"@, pattern));
            }
        }
        lemma_contains_sum(includes_in(fewer), includes_on(lines.last()), pattern);
    }
}

/// A file of SSH configuration declares and includes what its first lines do and then what its
/// other lines do.
pub proof fn lemma_ssh_lines_in_order(a: Seq<Seq<char>>, b: Seq<Seq<char>>)
    ensures
        hosts_in(a + b) == hosts_in(a) + hosts_in(b),
        includes_in(a + b) == includes_in(a) + includes_in(b),
    decreases b.len(),
{
    if b.len() == 0 {
        assert(a + b =~= a);
        assert(hosts_in(a) + hosts_in(b) =~= hosts_in(a));
        assert(includes_in(a) + includes_in(b) =~= includes_in(a));
    } else {
        lemma_ssh_lines_in_order(a, b.drop_last());
        assert((a + b).drop_last() =~= a + b.drop_last());
        assert((a + b).last() == b.last());
        assert(hosts_in(a + b) =~= hosts_in(a) + hosts_in(b));
        assert(includes_in(a + b) =~= includes_in(a) + includes_in(b));
    }
}

/// An included file lies below the directory of the file that includes it, unless it is given
/// from the root or from the home directory.
pub proof fn lemma_include_lies(
    pattern: Seq<char>,
    directory: Seq<char>,
    home: Seq<char>,
)
    requires
        pattern.len() > 0,
        pattern[0] != '/',
        pattern[0] != '~',
        directory.len() > 0,
        directory.last() != '/',
        home.len() > 1,
        home[0] == '/',
        home.last() != '/',
    ensures
        include_of(pattern, directory, home) == directory + seq!['/'] + pattern,
        include_of(seq!['/'] + pattern, directory, home) == seq!['/'] + pattern,
        include_of(seq!['~', '/'] + pattern, directory, home) == home + seq!['/'] + pattern,
{
    paths::lemma_paths_join(directory, pattern, home);
    paths::lemma_paths_join(home, pattern, home);
    let below = home + seq!['/'] + pattern;
    assert(below[0] == '/');
}

/// The names that a pattern stands for are exactly those that fit it, in ascending order.
pub proof fn lemma_fitting(pattern: Seq<char>, names: Seq<Seq<char>>, name: Seq<char>)
    ensures
        table::ascending(fitting(pattern, names)),
        fitting(pattern, names).contains(name) == (names.contains(name) && glob::text_fits(
            pattern,
            name,
        )),
{
    vstd::seq_lib::seq_to_set_is_finite(names);
    let found = names.to_set().filter(|name: Seq<char>| glob::text_fits(pattern, name));
    table::lemma_sorted_keys_exist(found);
    assert(fitting(pattern, names).to_set().contains(name) == found.contains(name));
}

/// A workspace of Coder is watched under `coder.` and its name.
pub open spec fn is_watched_workspace(workspace: Tree, alias: Seq<char>) -> bool {
    &&& workspace.text_at("name"@) matches Some(name) && name.len() >= 3 && name[0] == 'd'
        && name[1] == 'e' && name[2] == 'v' && alias == "coder."@ + name
    &&& workspace.get("latest_build"@) matches Some(build) && (build.text_at("status"@) matches Some(
        status,
    ) && text::lower(status) == "running"@)
}

/// An alias is among those of Coder if and only if one of the listed workspaces, whichever it
/// is, is running, begins with `dev` and has that alias. The aliases are in ascending order.
pub proof fn lemma_coder_aliases(list: Tree, alias: Seq<char>)
    ensures
        table::ascending(coder_hosts_in(list)),
        coder_hosts_in(list).contains(alias) <==> list.node is Array && exists|i: int|
            0 <= i < list.node->Array_0.len() && is_watched_workspace(
                #[trigger] list.node->Array_0[i],
                alias,
            ),
{
    if let TreeNode::Array(workspaces) = list.node {
        lemma_aliases(workspaces, alias);
        let found = aliases_of(workspaces);
        table::lemma_sorted_keys_exist(found);
        assert(coder_hosts_in(list).to_set().contains(alias) == found.contains(alias));
    }
}

proof fn lemma_alias(workspace: Tree, alias: Seq<char>)
    ensures
        alias_of(workspace) == Some(alias) <==> is_watched_workspace(workspace, alias),
{
    reveal_strlit("dev");
    reveal_strlit("running");
    assert(text::lower("running"@) =~= "running"@);
    assert("running"@.len() == 7);
    let name = text::or_empty(workspace.text_at("name"@));
    if name.len() >= 3 && name[0] == 'd' && name[1] == 'e' && name[2] == 'v' {
        assert("dev"@ =~= name.subrange(0, 3));
    }
    if "dev"@.is_prefix_of(name) {
        assert("dev"@[0] == name[0] && "dev"@[1] == name[1] && "dev"@[2] == name[2]);
    }
    assert(text::lower(Seq::<char>::empty()).len() == 0);
}

proof fn lemma_aliases(workspaces: Seq<Tree>, alias: Seq<char>)
    ensures
        aliases_of(workspaces).finite(),
        aliases_of(workspaces).contains(alias) <==> exists|i: int|
            0 <= i < workspaces.len() && is_watched_workspace(#[trigger] workspaces[i], alias),
    decreases workspaces.len(),
{
    if workspaces.len() > 0 {
        let fewer = workspaces.drop_last();
        lemma_aliases(fewer, alias);
        lemma_alias(workspaces.last(), alias);
        assert(forall|i: int| 0 <= i < fewer.len() ==> #[trigger] fewer[i] == workspaces[i]);
        assert(workspaces[workspaces.len() - 1] == workspaces.last());
        if aliases_of(fewer).contains(alias) {
            let i = choose|i: int|
                0 <= i < fewer.len() && is_watched_workspace(#[trigger] fewer[i], alias);
            assert(is_watched_workspace(workspaces[i], alias));
        }
        if exists|i: int|
            0 <= i < workspaces.len() && is_watched_workspace(#[trigger] workspaces[i], alias) {
            let i = choose|i: int|
                0 <= i < workspaces.len() && is_watched_workspace(#[trigger] workspaces[i], alias);
            if i < fewer.len() {
                assert(is_watched_workspace(fewer[i], alias));
            }
        }
    }
}

/// One of the lines says that.
pub open spec fn has_entry(content: Option<Seq<char>>, wanted: Seq<char>) -> bool {
    content matches Some(content) && wanted.len() > 0 && exists|i: int|
        0 <= i < split::lines(content).len() && config::entry(#[trigger] split::lines(content)[i])
            == wanted
}

/// A host is discovered if and only if a line of the hosts file, the SSH configuration or Coder
/// names it, and no line of the ignore file fits it, whatever the case of the letters. The hosts
/// are in ascending order.
pub proof fn lemma_discovered(
    hosts_file: Option<Seq<char>>,
    ssh_hosts: Seq<Seq<char>>,
    coder_hosts: Seq<Seq<char>>,
    ignore_file: Option<Seq<char>>,
    host: Seq<char>,
)
    ensures
        ({
            let found = table::sorted_keys(
                discovered(hosts_file, ssh_hosts, coder_hosts, ignore_file),
            );
            &&& table::ascending(found)
            &&& found.contains(host) <==> (has_entry(hosts_file, host) || ssh_hosts.contains(host)
                || coder_hosts.contains(host)) && !(exists|pattern: Seq<char>|
                has_entry(ignore_file, pattern) && #[trigger] glob::text_fits(
                    text::lower(pattern),
                    text::lower(host),
                ))
        }),
{
    lemma_ignored_hosts_stay_out(hosts_file, ssh_hosts, coder_hosts, ignore_file, host);
    let every = (listed(hosts_file) + ssh_hosts + coder_hosts).to_set();
    vstd::seq_lib::seq_to_set_is_finite(listed(hosts_file) + ssh_hosts + coder_hosts);
    table::lemma_sorted_keys_exist(discovered(hosts_file, ssh_hosts, coder_hosts, ignore_file));
    if let Some(content) = hosts_file {
        config::lemma_is_entry(split::lines(content), host);
    }
    let patterns = listed(ignore_file);
    assert forall|pattern: Seq<char>| has_entry(ignore_file, pattern) == #[trigger] patterns.contains(
        pattern,
    ) by {
        if let Some(content) = ignore_file {
            config::lemma_is_entry(split::lines(content), pattern);
        }
    }
    if ignored(host, patterns) {
        let i = choose|i: int|
            0 <= i < patterns.len() && glob::text_fits(
                text::lower(#[trigger] patterns[i]),
                text::lower(host),
            );
        assert(patterns.contains(patterns[i]));
        assert(glob::text_fits(text::lower(patterns[i]), text::lower(host)));
    }
    if exists|pattern: Seq<char>|
        has_entry(ignore_file, pattern) && #[trigger] glob::text_fits(
            text::lower(pattern),
            text::lower(host),
        ) {
        let pattern = choose|pattern: Seq<char>|
            has_entry(ignore_file, pattern) && #[trigger] glob::text_fits(
                text::lower(pattern),
                text::lower(host),
            );
        assert(patterns.contains(pattern));
        let i = choose|i: int| 0 <= i < patterns.len() && patterns[i] == pattern;
        assert(glob::text_fits(text::lower(patterns[i]), text::lower(host)));
    }
}

} // verus!
