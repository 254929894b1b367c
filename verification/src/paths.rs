//! Paths as text, with `/` between their parts.
use vstd::prelude::*;
use vstd::slice::slice_subrange;

use crate::split;
use crate::split::split_at_each;
use crate::text::{to_chars, to_text};

verus! {

/// `part` inside `base`: a `/` goes between them unless `base` is empty or ends in one.
/// A `part` that is itself absolute stands alone.
pub open spec fn joined(base: Seq<char>, part: Seq<char>) -> Seq<char> {
    if part.len() > 0 && part[0] == '/' {
        part
    } else if base.len() == 0 || base.last() == '/' {
        base + part
    } else {
        base.push('/') + part
    }
}

/// A path with a leading `~` replaced by the home directory.
pub open spec fn home_expanded(path: Seq<char>, home: Seq<char>) -> Seq<char> {
    if path == seq!['~'] {
        home
    } else if path.len() >= 2 && path[0] == '~' && path[1] == '/' {
        joined(home, path.skip(2))
    } else {
        path
    }
}

/// The pieces of a path without the empty ones and the `.` ones at its end.
pub open spec fn without_trailing(pieces: Seq<Seq<char>>) -> Seq<Seq<char>>
    decreases pieces.len(),
{
    if pieces.len() > 0 && (pieces.last().len() == 0 || pieces.last() == seq!['.']) {
        without_trailing(pieces.drop_last())
    } else {
        pieces
    }
}

/// The last part of a path that names a file or a directory: there is none where the path
/// is empty, is the root, or ends in `..`.
pub open spec fn last_name(path: Seq<char>) -> Option<Seq<char>> {
    let pieces = without_trailing(split::pieces(path, '/'));
    if pieces.len() == 0 || pieces.last() == seq!['.', '.'] {
        None
    } else {
        Some(pieces.last())
    }
}

/// `part` inside `base`.
pub fn join(base: &str, part: &str) -> (r: String)
    ensures
        r@ == joined(base@, part@),
{
    let head = to_chars(base);
    let tail = to_chars(part);
    if tail.len() > 0 && tail[0] == '/' {
        return part.to_owned();
    }
    let mut out = base.to_owned();
    if head.len() > 0 && head[head.len() - 1] != '/' {
        out.push('/');
    }
    out.append(part);
    out
}

/// Replaces a leading `~` by the home directory.
pub fn expand_home(path: &str, home: &str) -> (r: String)
    ensures
        r@ == home_expanded(path@, home@),
{
    let chars = to_chars(path);
    if chars.len() == 1 && chars[0] == '~' {
        assert(path@ =~= seq!['~']);
        home.to_owned()
    } else if chars.len() >= 2 && chars[0] == '~' && chars[1] == '/' {
        let rest = slice_subrange(chars.as_slice(), 2, chars.len());
        assert(rest@ =~= path@.skip(2));
        let rest_text = to_text(rest);
        join(home, rest_text.as_str())
    } else {
        path.to_owned()
    }
}

/// The last part of a path that names a file or a directory.
pub fn file_name(path: &str) -> (r: Option<String>)
    ensures
        match r {
            Some(name) => last_name(path@) == Some(name@),
            None => last_name(path@) is None,
        },
{
    let chars = to_chars(path);
    let pieces = split_at_each(chars.as_slice(), '/');
    let ghost all = split::pieces(path@, '/');
    let mut n: usize = pieces.len();
    assert(all.take(n as int) =~= all);
    while n > 0 && (pieces[n - 1].len() == 0 || (pieces[n - 1].len() == 1 && pieces[n - 1][0]
        == '.'))
        invariant
            n <= pieces@.len(),
            all == split::views(pieces@),
            without_trailing(all) == without_trailing(all.take(n as int)),
        decreases n,
    {
        proof {
            let last = pieces@[n - 1]@;
            assert(all.take(n as int).last() == last);
            assert(last.len() == 0 || last =~= seq!['.']);
            assert(all.take(n as int).drop_last() =~= all.take(n - 1));
        }
        n -= 1;
    }
    proof {
        if n > 0 {
            let last = pieces@[n - 1]@;
            assert(all.take(n as int).last() == last);
            assert(last != seq!['.']) by {
                if last == seq!['.'] {
                    assert(last.len() == 1 && last[0] == '.');
                }
            }
        }
        assert(without_trailing(all) == all.take(n as int));
    }
    if n == 0 {
        return None;
    }
    let last = pieces[n - 1];
    assert(all.take(n as int).last() == last@);
    if last.len() == 2 && last[0] == '.' && last[1] == '.' {
        assert(last@ =~= seq!['.', '.']);
        return None;
    }
    assert(last@ != seq!['.', '.']) by {
        if last@ == seq!['.', '.'] {
            assert(last@.len() == 2 && last@[0] == '.' && last@[1] == '.');
        }
    }
    Some(to_text(last))
}

/// The last name of a path is what stands behind its last `/`, with or without a further `/`
/// behind it.
pub proof fn lemma_last_name(directory: Seq<char>, name: Seq<char>)
    requires
        name.len() > 0,
        !name.contains('/'),
        name != seq!['.'],
        name != seq!['.', '.'],
    ensures
        last_name(name) == Some(name),
        last_name(directory + seq!['/'] + name) == Some(name),
        last_name(directory + seq!['/'] + name + seq!['/']) == Some(name),
{
    let path = directory + seq!['/'] + name;
    split::lemma_one_piece(name, '/');
    split::lemma_last_piece(directory, name, '/');
    split::lemma_last_piece(path, Seq::empty(), '/');
    let pieces = split::pieces(directory, '/').push(name);
    assert(path + seq!['/'] + Seq::empty() =~= path + seq!['/']);
    let longer = pieces.push(Seq::empty());
    assert(longer.drop_last() =~= pieces);
    assert(without_trailing(pieces) == pieces);
    assert(without_trailing(longer) == pieces);
    assert(without_trailing(seq![name]) == seq![name]);
}

/// A path below a directory is the directory, a `/` and the rest; an absolute one stands
/// alone. A `~` in front stands for the home directory, and nowhere else.
pub proof fn lemma_paths_join(base: Seq<char>, part: Seq<char>, home: Seq<char>)
    requires
        base.len() > 0,
        base.last() != '/',
        part.len() > 0,
        part[0] != '/',
    ensures
        joined(base, part) == base + seq!['/'] + part,
        joined(base.push('/'), part) == base + seq!['/'] + part,
        joined(base, seq!['/'] + part) == seq!['/'] + part,
        home_expanded(seq!['~'], home) == home,
        home_expanded(seq!['~', '/'] + part, home) == joined(home, part),
        part[0] != '~' ==> home_expanded(part, home) == part,
        home_expanded(seq!['/'] + part, home) == seq!['/'] + part,
{
    assert(base.push('/') =~= base + seq!['/']);
    let below = seq!['~', '/'] + part;
    assert(below.skip(2) =~= part);
    assert(below[0] == '~' && below[1] == '/');
    assert(below.len() > 1);
    assert(joined(base.push('/'), part) =~= base + seq!['/'] + part);
    assert((seq!['/'] + part)[0] == '/');
}

} // verus!
