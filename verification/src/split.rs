//! Cutting text apart and putting it back together.
use vstd::prelude::*;
use vstd::slice::slice_subrange;

use crate::text::{begins_with, char_is_space};
use crate::text;

verus! {

// ---------------------------------------------------------------------------
// Trimming
// ---------------------------------------------------------------------------

/// The text without its leading white space.
pub open spec fn trim_start(s: Seq<char>) -> Seq<char>
    decreases s.len(),
{
    if s.len() > 0 && text::is_space(s[0]) {
        trim_start(s.drop_first())
    } else {
        s
    }
}

/// The text without its trailing white space.
pub open spec fn trim_end(s: Seq<char>) -> Seq<char>
    decreases s.len(),
{
    if s.len() > 0 && text::is_space(s.last()) {
        trim_end(s.drop_last())
    } else {
        s
    }
}

/// The text without white space at either end.
pub open spec fn trim(s: Seq<char>) -> Seq<char> {
    trim_end(trim_start(s))
}

proof fn lemma_trim_start_at(s: Seq<char>, n: int)
    requires
        0 <= n <= s.len(),
        forall|j: int| 0 <= j < n ==> text::is_space(#[trigger] s[j]),
        n == s.len() || !text::is_space(s[n]),
    ensures
        trim_start(s) == s.skip(n),
    decreases n,
{
    if n > 0 {
        assert(text::is_space(s[0]));
        assert forall|j: int| 0 <= j < n - 1 implies text::is_space(#[trigger] s.drop_first()[j]) by {
            assert(s.drop_first()[j] == s[j + 1]);
        }
        lemma_trim_start_at(s.drop_first(), n - 1);
        assert(s.drop_first().skip(n - 1) =~= s.skip(n));
    } else {
        assert(s.skip(0) =~= s);
    }
}

proof fn lemma_trim_end_at(s: Seq<char>, n: int)
    requires
        0 <= n <= s.len(),
        forall|j: int| n <= j < s.len() ==> text::is_space(#[trigger] s[j]),
        n == 0 || !text::is_space(s[n - 1]),
    ensures
        trim_end(s) == s.take(n),
    decreases s.len() - n,
{
    if n < s.len() {
        assert(text::is_space(s.last()));
        lemma_trim_end_at(s.drop_last(), n);
        assert(s.drop_last().take(n) =~= s.take(n));
    } else {
        assert(s.take(n) =~= s);
    }
}

/// Where a trimmed text begins and ends.
pub proof fn lemma_trim_at(s: Seq<char>, from: int, to: int)
    requires
        0 <= from <= to <= s.len(),
        forall|j: int| 0 <= j < from ==> text::is_space(#[trigger] s[j]),
        forall|j: int| to <= j < s.len() ==> text::is_space(#[trigger] s[j]),
        from < to ==> !text::is_space(s[from]) && !text::is_space(s[to - 1]),
        from == to ==> from == s.len() || to == 0,
    ensures
        trim(s) == s.subrange(from, to),
{
    if from == to && to == 0 {
        lemma_trim_start_at(s, s.len() as int);
        assert(s.skip(s.len() as int) =~= s.subrange(0, 0));
    } else {
        lemma_trim_start_at(s, from);
        let rest = s.skip(from);
        assert forall|j: int| to - from <= j < rest.len() implies text::is_space(
            #[trigger] rest[j],
        ) by {
            assert(rest[j] == s[j + from]);
        }
        lemma_trim_end_at(rest, to - from);
        assert(rest.take(to - from) =~= s.subrange(from, to));
    }
}

/// A trimmed text is the part between the first and the last character that is not
/// white space.
pub proof fn lemma_trim(s: Seq<char>)
    ensures
        trim(s).len() <= s.len(),
        trim(trim(s)) == trim(s),
        trim(s).len() > 0 ==> !text::is_space(trim(s)[0]) && !text::is_space(trim(s).last()),
        exists|from: int, to: int| 0 <= from <= to <= s.len() && trim(s) == #[trigger] s.subrange(from, to),
    decreases s.len(),
{
    if s.len() == 0 {
        assert(s =~= s.subrange(0, 0));
    } else if text::is_space(s[0]) {
        let rest = s.drop_first();
        lemma_trim(rest);
        let (from, to) = choose|from: int, to: int|
            0 <= from <= to <= rest.len() && trim(rest) == #[trigger] rest.subrange(from, to);
        assert(rest.subrange(from, to) =~= s.subrange(from + 1, to + 1));
    } else if text::is_space(s.last()) {
        let rest = s.drop_last();
        assert(rest.len() > 0 ==> rest[0] == s[0]);
        lemma_trim(rest);
        let (from, to) = choose|from: int, to: int|
            0 <= from <= to <= rest.len() && trim(rest) == #[trigger] rest.subrange(from, to);
        assert(rest.subrange(from, to) =~= s.subrange(from, to));
    } else {
        assert(s =~= s.subrange(0, s.len() as int));
    }
}

/// What is left of a text after its trailing white space is a first part of it, and only
/// white space follows.
pub proof fn lemma_trim_end_is_prefix(s: Seq<char>)
    ensures
        trim_end(s).len() <= s.len(),
        trim_end(s) == s.take(trim_end(s).len() as int),
        trim_end(s).len() > 0 ==> !text::is_space(trim_end(s).last()),
        forall|j: int| trim_end(s).len() <= j < s.len() ==> text::is_space(#[trigger] s[j]),
    decreases s.len(),
{
    if s.len() > 0 && text::is_space(s.last()) {
        lemma_trim_end_is_prefix(s.drop_last());
        let n = trim_end(s).len() as int;
        assert(s.drop_last().take(n) =~= s.take(n));
        assert forall|j: int| n <= j < s.len() implies text::is_space(#[trigger] s[j]) by {
            if j < s.len() - 1 {
                assert(s[j] == s.drop_last()[j]);
            }
        }
    } else {
        assert(s.take(s.len() as int) =~= s);
    }
}

pub fn trimmed_start(s: &[char]) -> (r: &[char])
    ensures
        r@ == trim_start(s@),
{
    let mut n: usize = 0;
    while n < s.len() && char_is_space(s[n])
        invariant
            n <= s@.len(),
            forall|j: int| 0 <= j < n ==> text::is_space(#[trigger] s@[j]),
        decreases s@.len() - n,
    {
        n += 1;
    }
    proof {
        lemma_trim_start_at(s@, n as int);
    }
    slice_subrange(s, n, s.len())
}

pub fn trimmed_end(s: &[char]) -> (r: &[char])
    ensures
        r@ == trim_end(s@),
{
    let mut n: usize = s.len();
    while n > 0 && char_is_space(s[n - 1])
        invariant
            n <= s@.len(),
            forall|j: int| n <= j < s@.len() ==> text::is_space(#[trigger] s@[j]),
        decreases n,
    {
        n -= 1;
    }
    proof {
        lemma_trim_end_at(s@, n as int);
    }
    slice_subrange(s, 0, n)
}

pub fn trimmed(s: &[char]) -> (r: &[char])
    ensures
        r@ == trim(s@),
{
    trimmed_end(trimmed_start(s))
}

// ---------------------------------------------------------------------------
// Finding
// ---------------------------------------------------------------------------

/// Where `c` first occurs, or the length of the text.
pub open spec fn find(s: Seq<char>, c: char) -> nat
    decreases s.len(),
{
    if s.len() == 0 || s[0] == c {
        0
    } else {
        1 + find(s.drop_first(), c)
    }
}

/// Where white space first occurs, or the length of the text.
pub open spec fn find_space(s: Seq<char>) -> nat
    decreases s.len(),
{
    if s.len() == 0 || text::is_space(s[0]) {
        0
    } else {
        1 + find_space(s.drop_first())
    }
}

/// Where `pattern` first occurs as a part of the text.
pub open spec fn position(s: Seq<char>, pattern: Seq<char>) -> Option<nat>
    decreases s.len(),
{
    if pattern.is_prefix_of(s) {
        Some(0)
    } else if s.len() == 0 {
        None
    } else {
        match position(s.drop_first(), pattern) {
            Some(n) => Some(n + 1),
            None => None,
        }
    }
}

pub proof fn lemma_find(s: Seq<char>, c: char)
    ensures
        find(s, c) <= s.len(),
        forall|j: int| 0 <= j < find(s, c) ==> #[trigger] s[j] != c,
        find(s, c) < s.len() ==> s[find(s, c) as int] == c,
    decreases s.len(),
{
    if s.len() > 0 && s[0] != c {
        lemma_find(s.drop_first(), c);
        let n = find(s.drop_first(), c);
        assert forall|j: int| 0 <= j < n + 1 implies #[trigger] s[j] != c by {
            if j > 0 {
                assert(s[j] == s.drop_first()[j - 1]);
            }
        }
    }
}

pub proof fn lemma_find_at(s: Seq<char>, c: char, n: int)
    requires
        0 <= n <= s.len(),
        forall|j: int| 0 <= j < n ==> #[trigger] s[j] != c,
        n == s.len() || s[n] == c,
    ensures
        find(s, c) == n,
{
    lemma_find(s, c);
    let m = find(s, c) as int;
    if m < n {
        assert(s[m] != c);
    }
    if n < m {
        assert(s[n] != c);
    }
}

pub proof fn lemma_find_space(s: Seq<char>)
    ensures
        find_space(s) <= s.len(),
        forall|j: int| 0 <= j < find_space(s) ==> !text::is_space(#[trigger] s[j]),
        find_space(s) < s.len() ==> text::is_space(s[find_space(s) as int]),
    decreases s.len(),
{
    if s.len() > 0 && !text::is_space(s[0]) {
        lemma_find_space(s.drop_first());
        let n = find_space(s.drop_first());
        assert forall|j: int| 0 <= j < n + 1 implies !text::is_space(#[trigger] s[j]) by {
            if j > 0 {
                assert(s[j] == s.drop_first()[j - 1]);
            }
        }
    }
}

pub proof fn lemma_find_space_at(s: Seq<char>, n: int)
    requires
        0 <= n <= s.len(),
        forall|j: int| 0 <= j < n ==> !text::is_space(#[trigger] s[j]),
        n == s.len() || text::is_space(s[n]),
    ensures
        find_space(s) == n,
{
    lemma_find_space(s);
    let m = find_space(s) as int;
    if m < n {
        assert(!text::is_space(s[m]));
    }
    if n < m {
        assert(!text::is_space(s[n]));
    }
}

pub fn index_of(s: &[char], c: char) -> (n: usize)
    ensures
        n == find(s@, c),
        n <= s@.len(),
{
    let mut n: usize = 0;
    while n < s.len() && s[n] != c
        invariant
            n <= s@.len(),
            forall|j: int| 0 <= j < n ==> #[trigger] s@[j] != c,
        decreases s@.len() - n,
    {
        n += 1;
    }
    proof {
        lemma_find_at(s@, c, n as int);
    }
    n
}

pub fn index_of_space(s: &[char]) -> (n: usize)
    ensures
        n == find_space(s@),
        n <= s@.len(),
{
    let mut n: usize = 0;
    while n < s.len() && !char_is_space(s[n])
        invariant
            n <= s@.len(),
            forall|j: int| 0 <= j < n ==> !text::is_space(#[trigger] s@[j]),
        decreases s@.len() - n,
    {
        n += 1;
    }
    proof {
        lemma_find_space_at(s@, n as int);
    }
    n
}

pub proof fn lemma_position(s: Seq<char>, pattern: Seq<char>)
    ensures
        position(s, pattern) matches Some(n) ==> n + pattern.len() <= s.len() && s.subrange(
            n as int,
            (n + pattern.len()) as int,
        ) == pattern,
    decreases s.len(),
{
    if pattern.is_prefix_of(s) {
        assert(s.subrange(0, pattern.len() as int) =~= pattern);
    } else if s.len() > 0 {
        lemma_position(s.drop_first(), pattern);
        if let Some(n) = position(s.drop_first(), pattern) {
            assert(s.drop_first().subrange(n as int, (n + pattern.len()) as int) =~= s.subrange(
                (n + 1) as int,
                (n + 1 + pattern.len()) as int,
            ));
        }
    }
}

/// Where a pattern first occurs, if its first character does not occur any earlier.
pub proof fn lemma_position_at(s: Seq<char>, pattern: Seq<char>, n: int)
    requires
        pattern.len() > 0,
        0 <= n,
        n + pattern.len() <= s.len(),
        s.subrange(n, n + pattern.len()) == pattern,
        forall|j: int| 0 <= j < n ==> #[trigger] s[j] != pattern[0],
    ensures
        position(s, pattern) == Some(n as nat),
    decreases n,
{
    if n == 0 {
        assert(pattern.is_prefix_of(s));
    } else {
        assert(s[0] != pattern[0]);
        let rest = s.drop_first();
        assert(rest.subrange(n - 1, n - 1 + pattern.len()) =~= pattern);
        assert forall|j: int| 0 <= j < n - 1 implies #[trigger] rest[j] != pattern[0] by {
            assert(rest[j] == s[j + 1]);
        }
        lemma_position_at(rest, pattern, n - 1);
    }
}

pub fn index_of_text(s: &[char], pattern: &[char]) -> (r: Option<usize>)
    ensures
        match r {
            Some(n) => position(s@, pattern@) == Some(n as nat) && n + pattern@.len() <= s@.len(),
            None => position(s@, pattern@) is None,
        },
{
    let mut n: usize = 0;
    assert(s@.skip(0) =~= s@);
    while n < s.len()
        invariant
            n <= s@.len(),
            position(s@, pattern@) == match position(s@.skip(n as int), pattern@) {
                Some(m) => Some((m + n) as nat),
                None => None,
            },
        decreases s@.len() - n,
    {
        let rest = slice_subrange(s, n, s.len());
        assert(rest@ =~= s@.skip(n as int));
        if begins_with(rest, pattern) {
            return Some(n);
        }
        assert(s@.skip(n as int).drop_first() =~= s@.skip(n + 1));
        n += 1;
    }
    if pattern.len() == 0 {
        assert(pattern@.is_prefix_of(s@.skip(n as int)));
        Some(n)
    } else {
        None
    }
}

// ---------------------------------------------------------------------------
// Lists of texts
// ---------------------------------------------------------------------------

/// The texts that a list of character slices stands for.
pub open spec fn views(parts: Seq<&[char]>) -> Seq<Seq<char>> {
    Seq::new(parts.len(), |i: int| parts[i]@)
}

/// The texts of a list of strings.
pub open spec fn texts(parts: Seq<String>) -> Seq<Seq<char>> {
    Seq::new(parts.len(), |i: int| parts[i]@)
}

/// The texts one after the other, with `separator` between them.
pub open spec fn join(parts: Seq<Seq<char>>, separator: Seq<char>) -> Seq<char>
    decreases parts.len(),
{
    if parts.len() == 0 {
        seq![]
    } else if parts.len() == 1 {
        parts[0]
    } else {
        join(parts.drop_last(), separator) + separator + parts.last()
    }
}

pub fn push_all(out: &mut Vec<char>, more: &[char])
    ensures
        final(out)@ == old(out)@ + more@,
{
    let mut i: usize = 0;
    while i < more.len()
        invariant
            i <= more@.len(),
            out@ == old(out)@ + more@.take(i as int),
        decreases more@.len() - i,
    {
        out.push(more[i]);
        i += 1;
        assert(out@ =~= old(out)@ + more@.take(i as int));
    }
    assert(more@.take(i as int) =~= more@);
}

pub fn joined(parts: &Vec<&[char]>, separator: &[char]) -> (r: Vec<char>)
    ensures
        r@ == join(views(parts@), separator@),
{
    let mut out: Vec<char> = Vec::new();
    let mut i: usize = 0;
    while i < parts.len()
        invariant
            i <= parts@.len(),
            out@ == join(views(parts@.take(i as int)), separator@),
        decreases parts@.len() - i,
    {
        proof {
            let next = views(parts@.take(i + 1));
            assert(next.drop_last() =~= views(parts@.take(i as int)));
        }
        if i > 0 {
            push_all(&mut out, separator);
        }
        push_all(&mut out, parts[i]);
        i += 1;
        assert(out@ =~= join(views(parts@.take(i as int)), separator@));
    }
    assert(parts@.take(i as int) =~= parts@);
    out
}

/// The texts of `parts` joined, as a string.
pub fn joined_texts(parts: &Vec<String>, separator: &str) -> (r: String)
    ensures
        r@ == join(texts(parts@), separator@),
{
    let mut out = String::new();
    let mut i: usize = 0;
    while i < parts.len()
        invariant
            i <= parts@.len(),
            out@ == join(texts(parts@.take(i as int)), separator@),
        decreases parts@.len() - i,
    {
        proof {
            let next = texts(parts@.take(i + 1));
            assert(next.drop_last() =~= texts(parts@.take(i as int)));
        }
        if i > 0 {
            out.append(separator);
        }
        out.append(parts[i].as_str());
        i += 1;
        assert(out@ =~= join(texts(parts@.take(i as int)), separator@));
    }
    assert(parts@.take(i as int) =~= parts@);
    out
}

/// The words of a text: its longest pieces without white space, in order.
pub open spec fn words(s: Seq<char>) -> Seq<Seq<char>>
    decreases s.len(),
{
    if s.len() == 0 {
        seq![]
    } else if text::is_space(s[0]) {
        words(s.drop_first())
    } else {
        proof {
            lemma_find_space(s);
        }
        let n = find_space(s) as int;
        seq![s.take(n)] + words(s.skip(n))
    }
}

pub fn split_words(s: &[char]) -> (r: Vec<&[char]>)
    ensures
        views(r@) == words(s@),
{
    let mut out: Vec<&[char]> = Vec::new();
    let mut i: usize = 0;
    assert(s@.skip(0) =~= s@);
    assert(views(out@) + words(s@) =~= words(s@));
    while i < s.len()
        invariant
            i <= s@.len(),
            views(out@) + words(s@.skip(i as int)) == words(s@),
        decreases s@.len() - i,
    {
        if char_is_space(s[i]) {
            assert(s@.skip(i as int).drop_first() =~= s@.skip(i + 1));
            i += 1;
        } else {
            let ghost tail = s@.skip(i as int);
            let ghost before_push = out@;
            let rest = slice_subrange(s, i, s.len());
            assert(rest@ =~= tail);
            let n: usize = index_of_space(rest);
            assert(n > 0);
            let word = slice_subrange(s, i, i + n);
            assert(word@ =~= tail.take(n as int));
            assert(tail.skip(n as int) =~= s@.skip(i + n));
            out.push(word);
            i += n;
            assert(views(out@) =~= views(before_push) + seq![word@]);
            assert(views(out@) + words(s@.skip(i as int)) =~= views(before_push) + words(tail));
        }
    }
    assert(words(s@.skip(i as int)) =~= seq![]);
    assert(views(out@) =~= words(s@));
    out
}

/// The pieces of a text between the occurrences of `c`; one piece where there is none.
pub open spec fn pieces(s: Seq<char>, c: char) -> Seq<Seq<char>>
    decreases s.len(),
{
    proof {
        lemma_find(s, c);
    }
    let n = find(s, c) as int;
    if n >= s.len() {
        seq![s]
    } else {
        seq![s.take(n)] + pieces(s.skip(n + 1), c)
    }
}

/// The first piece ends at the first separator.
pub proof fn lemma_pieces(a: Seq<char>, b: Seq<char>, c: char)
    requires
        !a.contains(c),
    ensures
        pieces(a + seq![c] + b, c) == seq![a] + pieces(b, c),
{
    let s = a + seq![c] + b;
    assert forall|j: int| 0 <= j < a.len() implies #[trigger] s[j] != c by {
        assert(s[j] == a[j]);
    }
    lemma_find_at(s, c, a.len() as int);
    assert(s.take(a.len() as int) =~= a);
    assert(s.skip(a.len() as int + 1) =~= b);
}

pub fn split_at_each(s: &[char], c: char) -> (r: Vec<&[char]>)
    ensures
        views(r@) == pieces(s@, c),
{
    let mut out: Vec<&[char]> = Vec::new();
    let mut rest = s;
    assert(views(out@) + pieces(s@, c) =~= pieces(s@, c));
    loop
        invariant
            views(out@) + pieces(rest@, c) == pieces(s@, c),
        decreases rest@.len(),
    {
        let ghost earlier = out@;
        let n: usize = index_of(rest, c);
        if n == rest.len() {
            out.push(rest);
            assert(views(out@) =~= views(earlier) + pieces(rest@, c));
            return out;
        }
        let piece = slice_subrange(rest, 0, n);
        let tail = slice_subrange(rest, n + 1, rest.len());
        assert(piece@ =~= rest@.take(n as int));
        assert(tail@ =~= rest@.skip(n + 1));
        out.push(piece);
        assert(views(out@) =~= views(earlier) + seq![piece@]);
        assert(views(out@) + pieces(tail@, c) =~= views(earlier) + pieces(rest@, c));
        rest = tail;
    }
}

/// A line without the carriage return that may end it.
pub open spec fn strip_return(s: Seq<char>) -> Seq<char> {
    if s.len() > 0 && s.last() == '\r' {
        s.drop_last()
    } else {
        s
    }
}

/// The lines of a text. Each ends at `\n` or `\r\n`, which is not part of it; what
/// follows the last line end is a line of its own unless it is empty.
pub open spec fn lines(s: Seq<char>) -> Seq<Seq<char>>
    decreases s.len(),
{
    if s.len() == 0 {
        seq![]
    } else {
        proof {
            lemma_find(s, '\n');
        }
        let n = find(s, '\n') as int;
        if n == s.len() {
            seq![s]
        } else {
            seq![strip_return(s.take(n))] + lines(s.skip(n + 1))
        }
    }
}

pub fn split_lines(s: &[char]) -> (r: Vec<&[char]>)
    ensures
        views(r@) == lines(s@),
{
    let mut out: Vec<&[char]> = Vec::new();
    let mut i: usize = 0;
    assert(s@.skip(0) =~= s@);
    assert(views(out@) + lines(s@) =~= lines(s@));
    while i < s.len()
        invariant
            i <= s@.len(),
            views(out@) + lines(s@.skip(i as int)) == lines(s@),
        decreases s@.len() - i,
    {
        let ghost tail = s@.skip(i as int);
        let ghost earlier = out@;
        let rest = slice_subrange(s, i, s.len());
        assert(rest@ =~= tail);
        let n: usize = index_of(rest, '\n');
        if n == rest.len() {
            out.push(rest);
            i = s.len();
            assert(views(out@) =~= views(earlier) + seq![tail]);
            assert(lines(s@.skip(i as int)) =~= seq![]);
            assert(views(out@) + lines(s@.skip(i as int)) =~= views(earlier) + lines(tail));
        } else {
            let line = slice_subrange(rest, 0, n);
            assert(line@ =~= tail.take(n as int));
            let bare = if n > 0 && line[n - 1] == '\r' {
                slice_subrange(line, 0, n - 1)
            } else {
                line
            };
            assert(bare@ =~= strip_return(tail.take(n as int)));
            assert(tail.skip(n + 1) =~= s@.skip(i + n + 1));
            out.push(bare);
            i += n + 1;
            assert(views(out@) =~= views(earlier) + seq![bare@]);
            assert(views(out@) + lines(s@.skip(i as int)) =~= views(earlier) + lines(tail));
        }
    }
    assert(lines(s@.skip(i as int)) =~= seq![]);
    assert(views(out@) =~= lines(s@));
    out
}

/// The last `limit` elements, or all of them.
pub open spec fn last_of<A>(list: Seq<A>, limit: nat) -> Seq<A> {
    if list.len() > limit {
        list.skip(list.len() - limit)
    } else {
        list
    }
}

// ---------------------------------------------------------------------------
// How texts come apart
// ---------------------------------------------------------------------------

/// A text without white space is one word, unless it is empty.
pub proof fn lemma_one_word(s: Seq<char>)
    requires
        forall|i: int| 0 <= i < s.len() ==> !text::is_space(#[trigger] s[i]),
    ensures
        words(s) == if s.len() == 0 {
            Seq::<Seq<char>>::empty()
        } else {
            seq![s]
        },
{
    if s.len() > 0 {
        assert(!text::is_space(s[0]));
        lemma_find_space_at(s, s.len() as int);
        assert(s.take(s.len() as int) =~= s);
        let end = s.skip(s.len() as int);
        assert(end.len() == 0);
        assert(words(end) =~= seq![]);
        assert(words(s) =~= seq![s]);
    }
}

/// White space parts words: the words before it come first, then those after it.
pub proof fn lemma_words_part(a: Seq<char>, gap: char, b: Seq<char>)
    requires
        text::is_space(gap),
    ensures
        words(a + seq![gap] + b) == words(a) + words(b),
    decreases a.len(),
{
    let whole = a + seq![gap] + b;
    if a.len() == 0 {
        assert(whole[0] == gap);
        assert(whole.drop_first() =~= b);
        assert(words(a) + words(b) =~= words(b));
    } else if text::is_space(a[0]) {
        lemma_words_part(a.drop_first(), gap, b);
        assert(whole[0] == a[0]);
        assert(whole.drop_first() =~= a.drop_first() + seq![gap] + b);
    } else {
        lemma_find_space(a);
        let n = find_space(a) as int;
        assert(whole[0] == a[0]);
        assert forall|j: int| 0 <= j < n implies !text::is_space(#[trigger] whole[j]) by {
            assert(whole[j] == a[j]);
        }
        if n < a.len() {
            assert(whole[n] == a[n]);
        } else {
            assert(whole[n] == gap);
        }
        lemma_find_space_at(whole, n);
        assert(n > 0);
        assert(whole.take(n) =~= a.take(n));
        assert(whole.skip(n) =~= a.skip(n) + seq![gap] + b);
        lemma_words_part(a.skip(n), gap, b);
        assert(words(whole) =~= words(a) + words(b));
    }
}

/// Every word is free of white space, and none is empty.
pub proof fn lemma_words_are_words(s: Seq<char>)
    ensures
        forall|i: int, j: int|
            #![trigger words(s)[i][j]]
            0 <= i < words(s).len() && 0 <= j < words(s)[i].len() ==> !text::is_space(
                words(s)[i][j],
            ),
        forall|i: int| 0 <= i < words(s).len() ==> (#[trigger] words(s)[i]).len() > 0,
    decreases s.len(),
{
    if s.len() > 0 {
        if text::is_space(s[0]) {
            lemma_words_are_words(s.drop_first());
            assert(words(s) == words(s.drop_first()));
        } else {
            lemma_find_space(s);
            let n = find_space(s) as int;
            let rest = words(s.skip(n));
            lemma_words_are_words(s.skip(n));
            assert(words(s) == seq![s.take(n)] + rest);
            assert forall|i: int, j: int|
                #![trigger words(s)[i][j]]
                0 <= i < words(s).len() && 0 <= j < words(s)[i].len() implies !text::is_space(
                words(s)[i][j],
            ) by {
                if i == 0 {
                    assert(words(s)[i][j] == s[j]);
                } else {
                    assert(words(s)[i] == rest[i - 1]);
                    assert(!text::is_space(rest[i - 1][j]));
                }
            }
            assert forall|i: int| 0 <= i < words(s).len() implies (#[trigger] words(s)[i]).len()
                > 0 by {
                if i > 0 {
                    assert(words(s)[i] == rest[i - 1]);
                }
            }
        }
    }
}

/// A line ends at `\n`, or at `\r\n`; what follows are further lines.
pub proof fn lemma_line_ends(a: Seq<char>, b: Seq<char>)
    requires
        !a.contains('\n'),
    ensures
        lines(a + seq!['\r', '\n'] + b) == seq![a] + lines(b),
        a.len() == 0 || a.last() != '\r' ==> lines(a + seq!['\n'] + b) == seq![a] + lines(b),
{
    let long = a + seq!['\r', '\n'] + b;
    let n = a.len() as int + 1;
    assert forall|j: int| 0 <= j < n implies #[trigger] long[j] != '\n' by {
        if j < a.len() {
            assert(long[j] == a[j]);
            assert(a.contains(a[j]));
        }
    }
    assert(long[n] == '\n');
    lemma_find_at(long, '\n', n);
    assert(long.take(n).last() == '\r');
    assert(strip_return(long.take(n)) =~= a);
    assert(long.skip(n + 1) =~= b);
    let short = a + seq!['\n'] + b;
    assert forall|j: int| 0 <= j < a.len() implies #[trigger] short[j] != '\n' by {
        assert(short[j] == a[j]);
        assert(a.contains(a[j]));
    }
    assert(short[a.len() as int] == '\n');
    lemma_find_at(short, '\n', a.len() as int);
    assert(short.take(a.len() as int) =~= a);
    assert(short.skip(a.len() as int + 1) =~= b);
}

/// A text without a line end is one line, unless it is empty.
pub proof fn lemma_last_line(s: Seq<char>)
    requires
        !s.contains('\n'),
    ensures
        lines(s) == if s.len() == 0 {
            Seq::<Seq<char>>::empty()
        } else {
            seq![s]
        },
{
    if s.len() > 0 {
        assert forall|j: int| 0 <= j < s.len() implies #[trigger] s[j] != '\n' by {
            assert(s.contains(s[j]));
        }
        lemma_find_at(s, '\n', s.len() as int);
    }
}

/// A text without the separator is one piece.
pub proof fn lemma_one_piece(s: Seq<char>, c: char)
    requires
        !s.contains(c),
    ensures
        pieces(s, c) == seq![s],
{
    assert forall|j: int| 0 <= j < s.len() implies #[trigger] s[j] != c by {
        assert(s.contains(s[j]));
    }
    lemma_find_at(s, c, s.len() as int);
}

/// What is joined begins with its first part, and the rest follows behind the separator.
pub proof fn lemma_join_first(parts: Seq<Seq<char>>, separator: Seq<char>)
    requires
        parts.len() > 1,
    ensures
        join(parts, separator) == parts[0] + separator + join(parts.drop_first(), separator),
    decreases parts.len(),
{
    let rest = parts.drop_first();
    assert(parts.drop_last().drop_first() =~= rest.drop_last());
    assert(parts.last() == rest.last());
    if parts.len() == 2 {
        assert(parts.drop_last() =~= seq![parts[0]]);
        assert(rest =~= seq![parts[1]]);
        assert(join(parts.drop_last(), separator) == parts[0]);
        assert(join(rest, separator) == parts[1]);
    } else {
        lemma_join_first(parts.drop_last(), separator);
        assert(parts.drop_last()[0] == parts[0]);
        assert(join(rest, separator) == join(rest.drop_last(), separator) + separator
            + rest.last());
        assert(join(parts, separator) =~= parts[0] + separator + (join(rest.drop_last(), separator)
            + separator + rest.last()));
    }
}

/// Nothing joined is nothing, and one part alone stays as it is.
pub proof fn lemma_join_few(part: Seq<char>, separator: Seq<char>)
    ensures
        join(Seq::<Seq<char>>::empty(), separator) == Seq::<char>::empty(),
        join(seq![part], separator) == part,
{
}

/// The position of a pattern is the first place where it stands; there is none only where it
/// stands nowhere.
pub proof fn lemma_position_is_first(s: Seq<char>, pattern: Seq<char>, n: int)
    requires
        0 <= n,
        n + pattern.len() <= s.len(),
        s.subrange(n, n + pattern.len()) == pattern,
    ensures
        position(s, pattern) matches Some(first) && first <= n,
    decreases s.len(),
{
    if !pattern.is_prefix_of(s) {
        assert(n > 0) by {
            assert(n == 0 ==> pattern.is_prefix_of(s));
        }
        assert(s.drop_first().subrange(n - 1, n - 1 + pattern.len()) =~= s.subrange(
            n,
            n + pattern.len(),
        ));
        lemma_position_is_first(s.drop_first(), pattern, n - 1);
    }
}

/// The last elements are the end of the list: only what is too much at its front is missing.
pub proof fn lemma_last_of<A>(front: Seq<A>, end: Seq<A>, limit: nat)
    requires
        end.len() == limit || front.len() == 0 && end.len() < limit,
    ensures
        last_of(front + end, limit) == end,
{
    assert(last_of(front + end, limit) =~= end);
}

/// A further separator begins a further piece at the end.
pub proof fn lemma_last_piece(a: Seq<char>, b: Seq<char>, c: char)
    requires
        !b.contains(c),
    ensures
        pieces(a + seq![c] + b, c) == pieces(a, c).push(b),
    decreases a.len(),
{
    let whole = a + seq![c] + b;
    lemma_find(a, c);
    let n = find(a, c) as int;
    lemma_one_piece(b, c);
    if n == a.len() {
        assert(!a.contains(c)) by {
            if a.contains(c) {
                let i = choose|i: int| 0 <= i < a.len() && a[i] == c;
                assert(a[i] != c);
            }
        }
        lemma_pieces(a, b, c);
        lemma_one_piece(a, c);
        assert(seq![a] + seq![b] =~= seq![a].push(b));
    } else {
        assert forall|j: int| 0 <= j < n implies #[trigger] whole[j] != c by {
            assert(whole[j] == a[j]);
        }
        assert(whole[n] == a[n]);
        lemma_find_at(whole, c, n);
        assert(whole.take(n) =~= a.take(n));
        assert(whole.skip(n + 1) =~= a.skip(n + 1) + seq![c] + b);
        lemma_last_piece(a.skip(n + 1), b, c);
        assert(pieces(whole, c) =~= pieces(a, c).push(b));
    }
}

/// What is left of a text behind its leading white space is an end of it, and only white space
/// stands before.
pub proof fn lemma_trim_start_is_suffix(s: Seq<char>)
    ensures
        trim_start(s).len() <= s.len(),
        trim_start(s) == s.skip(s.len() - trim_start(s).len()),
        trim_start(s).len() > 0 ==> !text::is_space(trim_start(s)[0]),
        forall|j: int| 0 <= j < s.len() - trim_start(s).len() ==> text::is_space(#[trigger] s[j]),
    decreases s.len(),
{
    if s.len() > 0 && text::is_space(s[0]) {
        let rest = s.drop_first();
        lemma_trim_start_is_suffix(rest);
        let n = rest.len() - trim_start(rest).len();
        assert(rest.skip(n) =~= s.skip(n + 1));
        assert forall|j: int| 0 <= j < n + 1 implies text::is_space(#[trigger] s[j]) by {
            if j > 0 {
                assert(s[j] == rest[j - 1]);
            }
        }
    } else {
        assert(s.skip(0) =~= s);
    }
}

/// Only the first of two parts can lose white space at the front.
pub proof fn lemma_trim_start_part(a: Seq<char>, b: Seq<char>)
    requires
        b.len() > 0,
        !text::is_space(b[0]),
    ensures
        trim_start(a + b) == trim_start(a) + b,
{
    lemma_trim_start_is_suffix(a);
    let n = a.len() - trim_start(a).len();
    let whole = a + b;
    assert forall|j: int| 0 <= j < n implies text::is_space(#[trigger] whole[j]) by {
        assert(whole[j] == a[j]);
    }
    if n < a.len() {
        assert(whole[n] == a[n]);
        assert(a[n] == trim_start(a)[0]);
    } else {
        assert(whole[n] == b[0]);
    }
    lemma_trim_start_at(whole, n);
    assert(whole.skip(n) =~= a.skip(n) + b);
}

/// Only the last of two parts can lose white space at the end.
pub proof fn lemma_trim_end_part(a: Seq<char>, b: Seq<char>)
    requires
        a.len() > 0,
        !text::is_space(a.last()),
    ensures
        trim_end(a + b) == a + trim_end(b),
{
    lemma_trim_end_is_prefix(b);
    let n = trim_end(b).len() as int;
    let whole = a + b;
    let to = a.len() + n;
    assert forall|j: int| to <= j < whole.len() implies text::is_space(#[trigger] whole[j]) by {
        assert(whole[j] == b[j - a.len()]);
    }
    if n > 0 {
        assert(whole[to - 1] == b[n - 1]);
        assert(b[n - 1] == trim_end(b).last());
    } else {
        assert(whole[to - 1] == a.last());
    }
    lemma_trim_end_at(whole, to);
    assert(whole.take(to) =~= a + b.take(n));
}

/// It does not matter at which end the white space goes first.
pub proof fn lemma_trim_of_part(s: Seq<char>)
    ensures
        trim(trim_start(s)) == trim(s),
        trim(trim_end(s)) == trim(s),
{
    lemma_trim_start_is_suffix(s);
    lemma_trim_end_is_prefix(s);
    let front = trim_start(s);
    assert(trim_start(front) == front);
    let from = s.len() - front.len();
    let to = trim_end(s).len() as int;
    let head = s.take(to);
    if front.len() == 0 {
        assert forall|j: int| 0 <= j < s.len() implies text::is_space(#[trigger] s[j]) by {}
        lemma_trim_end_at(s, 0);
        assert(trim_end(s) =~= Seq::empty());
        assert(trim(trim_end(s)) =~= Seq::empty());
        assert(trim(s) =~= Seq::empty());
    } else {
        assert(s[from] == front[0]);
        assert(from < to) by {
            if to <= from {
                assert(text::is_space(s[from]));
            }
        }
        assert(s[to - 1] == trim_end(s).last());
        lemma_trim_at(s, from, to);
        assert forall|j: int| 0 <= j < from implies text::is_space(#[trigger] head[j]) by {
            assert(head[j] == s[j]);
        }
        lemma_trim_at(head, from, to);
        assert(head.subrange(from, to) =~= s.subrange(from, to));
    }
}

/// White space around a text does not change its words.
pub proof fn lemma_words_of_trimmed(s: Seq<char>)
    ensures
        words(trim(s)) == words(s),
{
    lemma_words_of_trimmed_start(s);
    lemma_words_of_trimmed_end(trim_start(s));
}

proof fn lemma_words_of_trimmed_start(s: Seq<char>)
    ensures
        words(trim_start(s)) == words(s),
    decreases s.len(),
{
    if s.len() > 0 && text::is_space(s[0]) {
        lemma_words_of_trimmed_start(s.drop_first());
    }
}

proof fn lemma_words_of_trimmed_end(s: Seq<char>)
    ensures
        words(trim_end(s)) == words(s),
    decreases s.len(),
{
    if s.len() > 0 && text::is_space(s.last()) {
        lemma_words_of_trimmed_end(s.drop_last());
        let none = Seq::<char>::empty();
        lemma_words_part(s.drop_last(), s.last(), none);
        assert(s.drop_last() + seq![s.last()] + none =~= s);
        assert(words(none) =~= Seq::empty());
        assert(words(s.drop_last()) + words(none) =~= words(s.drop_last()));
    }
}

} // verus!
