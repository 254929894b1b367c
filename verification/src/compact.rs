//! One-line summaries of a bounded length.
use vstd::prelude::*;
use vstd::slice::slice_subrange;

use crate::split;
use crate::split::{joined, split_words, trimmed_end};
use crate::text;
use crate::text::{to_chars, to_text};

verus! {

/// The words of a text with one blank between them; where that is longer than `limit`, its
/// beginning with an ellipsis behind it.
pub open spec fn compacted(s: Seq<char>, limit: nat) -> Seq<char> {
    let line = split::join(split::words(s), seq![' ']);
    if line.len() <= limit {
        line
    } else {
        let room = if limit == 0 {
            0
        } else {
            limit - 1
        };
        split::trim_end(line.take(room)).push('…')
    }
}

/// Puts a text on one line of at most `limit` characters.
pub fn compact_text(value: &str, limit: usize) -> (r: String)
    ensures
        r@ == compacted(value@, limit as nat),
{
    let chars = to_chars(value);
    let words = split_words(chars.as_slice());
    let mut blank: Vec<char> = Vec::new();
    blank.push(' ');
    assert(blank@ =~= seq![' ']);
    let line = joined(&words, blank.as_slice());
    if line.len() <= limit {
        return to_text(line.as_slice());
    }
    let room: usize = if limit == 0 {
        0
    } else {
        limit - 1
    };
    let head = slice_subrange(line.as_slice(), 0, room);
    assert(head@ =~= line@.take(room as int));
    let mut out = to_text(trimmed_end(head));
    out.push('…');
    out
}

// ---------------------------------------------------------------------------
// What a summary looks like
// ---------------------------------------------------------------------------

/// A line on which the only white space is single blanks between words.
pub open spec fn is_tidy(s: Seq<char>) -> bool {
    forall|i: int|
        0 <= i < s.len() && text::is_space(#[trigger] s[i]) ==> s[i] == ' ' && 0 < i < s.len() - 1
            && !text::is_space(s[i + 1])
}

/// A word: not empty, and free of white space.
spec fn is_word(w: Seq<char>) -> bool {
    w.len() > 0 && forall|j: int| 0 <= j < w.len() ==> !text::is_space(#[trigger] w[j])
}

spec fn are_words(ws: Seq<Seq<char>>) -> bool {
    forall|i: int| 0 <= i < ws.len() ==> is_word(#[trigger] ws[i])
}

proof fn lemma_words(s: Seq<char>)
    ensures
        are_words(split::words(s)),
    decreases s.len(),
{
    if s.len() > 0 {
        if text::is_space(s[0]) {
            lemma_words(s.drop_first());
        } else {
            split::lemma_find_space(s);
            let n = split::find_space(s) as int;
            lemma_words(s.skip(n));
            let ws = split::words(s);
            assert forall|i: int| 0 <= i < ws.len() implies is_word(#[trigger] ws[i]) by {
                if i == 0 {
                    assert(ws[0] == s.take(n));
                    assert forall|j: int| 0 <= j < n implies !text::is_space(
                        #[trigger] s.take(n)[j],
                    ) by {
                        assert(s.take(n)[j] == s[j]);
                    }
                } else {
                    assert(ws[i] == split::words(s.skip(n))[i - 1]);
                }
            }
        }
    }
}

proof fn lemma_joined_words_tidy(ws: Seq<Seq<char>>)
    requires
        are_words(ws),
    ensures
        is_tidy(split::join(ws, seq![' '])),
        ws.len() > 0 ==> split::join(ws, seq![' ']).len() > 0,
    decreases ws.len(),
{
    if ws.len() == 1 {
        assert(is_word(ws[0]));
    } else if ws.len() > 1 {
        let fewer = ws.drop_last();
        assert(are_words(fewer)) by {
            assert forall|i: int| 0 <= i < fewer.len() implies is_word(#[trigger] fewer[i]) by {
                assert(fewer[i] == ws[i]);
            }
        }
        lemma_joined_words_tidy(fewer);
        let head = split::join(fewer, seq![' ']);
        let last = ws.last();
        assert(is_word(ws[ws.len() - 1]));
        let s = head + seq![' '] + last;
        assert forall|i: int| 0 <= i < s.len() && text::is_space(#[trigger] s[i]) implies s[i] == ' '
            && 0 < i < s.len() - 1 && !text::is_space(s[i + 1]) by {
            if i < head.len() {
                assert(s[i] == head[i]);
                assert(s[i + 1] == head[i + 1]);
            } else if i == head.len() {
                assert(s[i + 1] == last[0]);
            } else {
                assert(s[i] == last[i - head.len() - 1]);
            }
        }
    }
}

proof fn lemma_join_front(first: Seq<char>, rest: Seq<Seq<char>>)
    requires
        rest.len() > 0,
    ensures
        split::join(seq![first] + rest, seq![' ']) == first + seq![' '] + split::join(
            rest,
            seq![' '],
        ),
    decreases rest.len(),
{
    let all = seq![first] + rest;
    assert(all.drop_last() =~= seq![first] + rest.drop_last());
    assert(all.last() == rest.last());
    if rest.len() == 1 {
        assert(all.drop_last() =~= seq![first]);
        assert(split::join(seq![first], seq![' ']) == first);
    } else {
        lemma_join_front(first, rest.drop_last());
        let inner = split::join(rest.drop_last(), seq![' ']);
        assert(first + seq![' '] + inner + seq![' '] + rest.last() =~= first + seq![' '] + (inner
            + seq![' '] + rest.last()));
    }
}

/// A tidy line is its own words with blanks between them.
proof fn lemma_tidy_joins_back(s: Seq<char>)
    requires
        is_tidy(s),
    ensures
        split::join(split::words(s), seq![' ']) == s,
    decreases s.len(),
{
    if s.len() == 0 {
        assert(split::join(split::words(s), seq![' ']) =~= s);
    } else {
        assert(!text::is_space(s[0]));
        split::lemma_find_space(s);
        let n = split::find_space(s) as int;
        if n == s.len() {
            assert(s.take(n) =~= s);
            assert(split::words(s.skip(n)) =~= seq![]);
            assert(split::words(s) =~= seq![s]);
        } else {
            let tail = s.skip(n);
            let rest = s.skip(n + 1);
            assert(tail[0] == s[n]);
            assert(tail.drop_first() =~= rest);
            assert(split::words(tail) == split::words(rest));
            assert(is_tidy(rest)) by {
                assert forall|i: int|
                    0 <= i < rest.len() && text::is_space(#[trigger] rest[i]) implies rest[i] == ' '
                    && 0 < i < rest.len() - 1 && !text::is_space(rest[i + 1]) by {
                    assert(rest[i] == s[i + n + 1]);
                    if i == 0 {
                        assert(!text::is_space(s[n + 1]));
                    }
                    assert(rest[i + 1] == s[i + n + 2]);
                }
            }
            lemma_tidy_joins_back(rest);
            assert(rest.len() > 0);
            assert(split::words(rest).len() > 0) by {
                if split::words(rest).len() == 0 {
                    assert(split::join(split::words(rest), seq![' ']) =~= seq![]);
                }
            }
            lemma_join_front(s.take(n), split::words(rest));
            assert(s.take(n) + seq![' '] + rest =~= s);
        }
    }
}

/// A summary is tidy.
pub proof fn lemma_compacted_is_tidy(s: Seq<char>, limit: nat)
    ensures
        is_tidy(compacted(s, limit)),
{
    let line = split::join(split::words(s), seq![' ']);
    lemma_words(s);
    lemma_joined_words_tidy(split::words(s));
    if line.len() > limit {
        let room = if limit == 0 {
            0
        } else {
            limit - 1
        };
        let head = line.take(room);
        split::lemma_trim_end_is_prefix(head);
        let kept = split::trim_end(head);
        let result = kept.push('…');
        assert forall|i: int|
            0 <= i < result.len() && text::is_space(#[trigger] result[i]) implies result[i] == ' '
            && 0 < i < result.len() - 1 && !text::is_space(result[i + 1]) by {
            assert(!text::is_space('…'));
            assert(i < kept.len());
            assert(result[i] == line[i]);
            if i == kept.len() - 1 {
                assert(!text::is_space(kept.last()));
            } else {
                assert(result[i + 1] == line[i + 1]);
            }
        }
    }
}

/// A summary is no longer than its limit, unless the limit leaves no room for the ellipsis.
pub proof fn lemma_compacted_length(s: Seq<char>, limit: nat)
    requires
        limit > 0,
    ensures
        compacted(s, limit).len() <= limit,
{
    let line = split::join(split::words(s), seq![' ']);
    if line.len() > limit {
        split::lemma_trim_end_is_prefix(line.take(limit - 1));
    }
}

/// The summary of a summary is the summary itself.
pub proof fn lemma_compacted_twice(s: Seq<char>, limit: nat)
    requires
        limit > 0,
    ensures
        compacted(compacted(s, limit), limit) == compacted(s, limit),
{
    lemma_compacted_is_tidy(s, limit);
    lemma_compacted_length(s, limit);
    lemma_tidy_joins_back(compacted(s, limit));
}

/// A tidy line has nothing to trim.
pub proof fn lemma_tidy_is_trimmed(s: Seq<char>)
    requires
        is_tidy(s),
    ensures
        split::trim(s) == s,
{
    if s.len() == 0 {
        split::lemma_trim(s);
        assert(split::trim(s) =~= s);
    } else {
        assert(!text::is_space(s[0]));
        assert(!text::is_space(s[s.len() - 1]));
        split::lemma_trim_at(s, 0, s.len() as int);
        assert(s.subrange(0, s.len() as int) =~= s);
    }
}

proof fn lemma_words_hold_only(s: Seq<char>, c: char)
    requires
        !s.contains(c),
    ensures
        forall|i: int|
            0 <= i < split::words(s).len() ==> !(#[trigger] split::words(s)[i]).contains(c),
    decreases s.len(),
{
    if s.len() > 0 {
        if text::is_space(s[0]) {
            let rest = s.drop_first();
            assert(!rest.contains(c)) by {
                if rest.contains(c) {
                    let i = choose|i: int| 0 <= i < rest.len() && rest[i] == c;
                    assert(s[i + 1] == c);
                }
            }
            lemma_words_hold_only(rest, c);
            assert(split::words(s) == split::words(rest));
        } else {
            split::lemma_find_space(s);
            let n = split::find_space(s) as int;
            let rest = s.skip(n);
            assert(!rest.contains(c)) by {
                if rest.contains(c) {
                    let i = choose|i: int| 0 <= i < rest.len() && rest[i] == c;
                    assert(s[i + n] == c);
                }
            }
            lemma_words_hold_only(rest, c);
            let ws = split::words(s);
            assert forall|i: int| 0 <= i < ws.len() implies !(#[trigger] ws[i]).contains(c) by {
                if i == 0 {
                    let w = s.take(n);
                    assert(ws[0] == w);
                    if w.contains(c) {
                        let j = choose|j: int| 0 <= j < w.len() && w[j] == c;
                        assert(s[j] == c);
                    }
                } else {
                    assert(ws[i] == split::words(rest)[i - 1]);
                }
            }
        }
    }
}

proof fn lemma_join_holds_only(ws: Seq<Seq<char>>, c: char)
    requires
        c != ' ',
        forall|i: int| 0 <= i < ws.len() ==> !(#[trigger] ws[i]).contains(c),
    ensures
        !split::join(ws, seq![' ']).contains(c),
    decreases ws.len(),
{
    if ws.len() == 1 {
        assert(!ws[0].contains(c));
    } else if ws.len() > 1 {
        let fewer = ws.drop_last();
        assert forall|i: int| 0 <= i < fewer.len() implies !(#[trigger] fewer[i]).contains(c) by {
            assert(fewer[i] == ws[i]);
        }
        lemma_join_holds_only(fewer, c);
        let head = split::join(fewer, seq![' ']);
        let last = ws[ws.len() - 1];
        assert(!last.contains(c));
        let s = head + seq![' '] + last;
        if s.contains(c) {
            let i = choose|i: int| 0 <= i < s.len() && s[i] == c;
            if i < head.len() {
                assert(head[i] == c);
            } else if i > head.len() {
                assert(last[i - head.len() - 1] == c);
            }
        }
    }
}

/// A summary holds no character that the text does not hold, but for the ellipsis and
/// blanks.
pub proof fn lemma_compacted_holds_only(s: Seq<char>, limit: nat, c: char)
    requires
        !s.contains(c),
        c != ' ',
        c != '…',
    ensures
        !compacted(s, limit).contains(c),
{
    lemma_words_hold_only(s, c);
    let line = split::join(split::words(s), seq![' ']);
    lemma_join_holds_only(split::words(s), c);
    if line.len() > limit {
        let room = if limit == 0 {
            0
        } else {
            limit - 1
        };
        let head = line.take(room);
        split::lemma_trim_end_is_prefix(head);
        let result = compacted(s, limit);
        if result.contains(c) {
            let i = choose|i: int| 0 <= i < result.len() && result[i] == c;
            assert(line[i] == c);
        }
    }
}

proof fn lemma_words_of_joined(ws: Seq<Seq<char>>)
    requires
        are_words(ws),
    ensures
        split::words(split::join(ws, seq![' '])) == ws,
    decreases ws.len(),
{
    if ws.len() == 0 {
        assert(split::words(split::join(ws, seq![' '])) =~= ws);
    } else {
        let last = ws[ws.len() - 1];
        assert(is_word(last));
        split::lemma_one_word(last);
        if ws.len() == 1 {
            assert(seq![last] =~= ws);
        } else {
            let fewer = ws.drop_last();
            assert forall|i: int| 0 <= i < fewer.len() implies is_word(#[trigger] fewer[i]) by {
                assert(fewer[i] == ws[i]);
            }
            lemma_words_of_joined(fewer);
            split::lemma_words_part(split::join(fewer, seq![' ']), ' ', last);
            assert(fewer + seq![last] =~= ws);
        }
    }
}

proof fn lemma_joined_is_no_longer(s: Seq<char>)
    ensures
        split::join(split::words(s), seq![' ']).len() <= s.len(),
    decreases s.len(),
{
    if s.len() > 0 {
        if text::is_space(s[0]) {
            lemma_joined_is_no_longer(s.drop_first());
        } else {
            split::lemma_find_space(s);
            let n = split::find_space(s) as int;
            let tail = s.skip(n);
            let rest = split::words(tail);
            assert(split::words(s) == seq![s.take(n)] + rest);
            if rest.len() == 0 {
                assert(split::words(s) =~= seq![s.take(n)]);
            } else {
                assert(n < s.len()) by {
                    if n == s.len() {
                        assert(tail.len() == 0);
                    }
                }
                assert(tail[0] == s[n]);
                assert(tail.drop_first() =~= s.skip(n + 1));
                lemma_joined_is_no_longer(s.skip(n + 1));
                lemma_join_front(s.take(n), rest);
            }
        }
    }
}

/// A text that is not too long keeps all its words, in their order.
pub proof fn lemma_short_text_keeps_its_words(s: Seq<char>, limit: nat)
    requires
        s.len() <= limit,
    ensures
        split::words(compacted(s, limit)) == split::words(s),
{
    lemma_joined_is_no_longer(s);
    lemma_words(s);
    lemma_words_of_joined(split::words(s));
}

/// A tidy line that is not too long stays as it is.
pub proof fn lemma_tidy_line_stays(s: Seq<char>, limit: nat)
    requires
        is_tidy(s),
        s.len() <= limit,
    ensures
        compacted(s, limit) == s,
{
    lemma_tidy_joins_back(s);
}

/// A text that is too long keeps as much of its beginning as there is room for, but for a blank
/// at the cut, and an ellipsis says that there is more.
pub proof fn lemma_long_text_is_cut(s: Seq<char>, limit: nat)
    requires
        0 < limit < compacted(s, s.len()).len(),
    ensures
        compacted(s, limit).last() == '…',
        compacted(s, limit).drop_last().is_prefix_of(compacted(s, s.len())),
        limit - 1 <= compacted(s, limit).len() <= limit,
{
    lemma_joined_is_no_longer(s);
    let line = split::join(split::words(s), seq![' ']);
    lemma_words(s);
    lemma_joined_words_tidy(split::words(s));
    let room = limit - 1;
    let head = line.take(room);
    let kept = split::trim_end(head);
    split::lemma_trim_end_is_prefix(head);
    let result = compacted(s, limit);
    assert(result.drop_last() =~= kept);
    assert(kept =~= line.subrange(0, kept.len() as int));
    if kept.len() + 2 <= room {
        let i = kept.len() as int;
        assert(text::is_space(head[i]) && text::is_space(head[i + 1]));
        assert(line[i] == head[i] && line[i + 1] == head[i + 1]);
    }
}

} // verus!
