//! Patterns in which `*` stands for any bytes and `?` for any one byte.
use vstd::prelude::*;

verus! {

/// The byte of `*`.
pub const STAR: u8 = 42;

/// The byte of `?`.
pub const ANY: u8 = 63;

/// Whether the whole of `value` fits `pattern`: `*` stands for any run of bytes, the
/// empty one among them, `?` for any one byte, and every other byte for itself.
pub open spec fn fits(pattern: Seq<u8>, value: Seq<u8>) -> bool
    decreases pattern.len(), value.len(),
{
    if pattern.len() == 0 {
        value.len() == 0
    } else if pattern[0] == STAR {
        fits(pattern.drop_first(), value) || (value.len() > 0 && fits(pattern, value.drop_first()))
    } else {
        value.len() > 0 && (pattern[0] == ANY || pattern[0] == value[0]) && fits(
            pattern.drop_first(),
            value.drop_first(),
        )
    }
}

/// Whether the bytes of the text `value` fit the text `pattern`.
pub open spec fn text_fits(pattern: Seq<char>, value: Seq<char>) -> bool {
    fits(vstd::utf8::encode_utf8(pattern), vstd::utf8::encode_utf8(value))
}

/// Some end of `value` that begins at `from` or later fits `pattern`.
spec fn fits_later(pattern: Seq<u8>, value: Seq<u8>, from: int) -> bool {
    exists|j: int| from <= j <= value.len() && fits(pattern, #[trigger] value.skip(j))
}

/// A star lets the rest of the pattern begin anywhere from here on.
proof fn lemma_star(pattern: Seq<u8>, value: Seq<u8>, p: int, v: int)
    requires
        0 <= p < pattern.len(),
        pattern[p] == STAR,
        0 <= v <= value.len(),
    ensures
        fits(pattern.skip(p), value.skip(v)) == fits_later(pattern.skip(p + 1), value, v),
    decreases value.len() - v,
{
    assert(pattern.skip(p).drop_first() =~= pattern.skip(p + 1));
    if v < value.len() {
        lemma_star(pattern, value, p, v + 1);
        assert(value.skip(v).drop_first() =~= value.skip(v + 1));
    }
    if fits(pattern.skip(p), value.skip(v)) {
        if fits(pattern.skip(p + 1), value.skip(v)) {
        } else {
            let j = choose|j: int|
                v + 1 <= j <= value.len() && fits(pattern.skip(p + 1), #[trigger] value.skip(j));
            assert(fits(pattern.skip(p + 1), value.skip(j)));
        }
    }
    if fits_later(pattern.skip(p + 1), value, v) {
        let j = choose|j: int|
            v <= j <= value.len() && fits(pattern.skip(p + 1), #[trigger] value.skip(j));
        if j > v {
            assert(fits_later(pattern.skip(p + 1), value, v + 1));
        }
    }
}

/// A part of the pattern without stars takes up as many bytes as it has.
proof fn lemma_segment(pattern: Seq<u8>, value: Seq<u8>, from: int, to: int, j: int)
    requires
        0 <= from <= to <= pattern.len(),
        0 <= j <= value.len(),
        forall|k: int| from <= k < to ==> #[trigger] pattern[k] != STAR,
        fits(pattern.skip(from), value.skip(j)),
    ensures
        j + (to - from) <= value.len(),
        fits(pattern.skip(to), value.skip(j + (to - from))),
    decreases to - from,
{
    if from < to {
        assert(pattern.skip(from)[0] == pattern[from]);
        assert(pattern.skip(from).drop_first() =~= pattern.skip(from + 1));
        assert(value.skip(j).drop_first() =~= value.skip(j + 1));
        lemma_segment(pattern, value, from + 1, to, j + 1);
    }
}

/// Whether `value` fits `pattern`. Only the last star met is ever tried again: what an
/// earlier one could still reach, the last one reaches too.
pub fn bytes_fit(pattern: &[u8], value: &[u8]) -> (r: bool)
    ensures
        r == fits(pattern@, value@),
{
    let mut p: usize = 0;
    let mut v: usize = 0;
    let mut star: Option<usize> = None;
    let mut checkpoint: usize = 0;
    assert(pattern@.skip(0) =~= pattern@);
    assert(value@.skip(0) =~= value@);
    while v < value.len()
        invariant
            p <= pattern@.len(),
            v <= value@.len(),
            checkpoint <= v,
            match star {
                Some(s) => {
                    &&& s < p
                    &&& pattern@[s as int] == STAR
                    &&& v - checkpoint == p - (s + 1)
                    &&& forall|k: int| s < k < p ==> #[trigger] pattern@[k] != STAR
                },
                None => true,
            },
            fits(pattern@, value@) == (fits(pattern@.skip(p as int), value@.skip(v as int)) || (
            star matches Some(s) && fits_later(pattern@.skip(s + 1), value@, checkpoint + 1))),
        decreases
                value@.len() - (if star is Some {
                    checkpoint as int
                } else {
                    -1
                }),
                pattern@.len() - p,
    {
        let ghost here = fits(pattern@.skip(p as int), value@.skip(v as int));
        assert(p < pattern@.len() ==> pattern@.skip(p as int)[0] == pattern@[p as int]);
        assert(p < pattern@.len() ==> pattern@.skip(p as int).drop_first() =~= pattern@.skip(
            p + 1,
        ));
        assert(value@.skip(v as int)[0] == value@[v as int]);
        assert(value@.skip(v as int).drop_first() =~= value@.skip(v + 1));
        if p < pattern.len() && pattern[p] == STAR {
            proof {
                lemma_star(pattern@, value@, p as int, v as int);
                if let Some(s) = star {
                    if fits_later(pattern@.skip(s + 1), value@, checkpoint + 1) {
                        let j = choose|j: int|
                            checkpoint + 1 <= j <= value@.len() && fits(
                                pattern@.skip(s + 1),
                                #[trigger] value@.skip(j),
                            );
                        lemma_segment(pattern@, value@, s + 1, p as int, j);
                        let k = j + (p - (s + 1));
                        lemma_star(pattern@, value@, p as int, k);
                        let m = choose|m: int|
                            k <= m <= value@.len() && fits(
                                pattern@.skip(p + 1),
                                #[trigger] value@.skip(m),
                            );
                        assert(fits(pattern@.skip(p + 1), value@.skip(m)));
                        assert(here);
                    }
                }
                if fits_later(pattern@.skip(p + 1), value@, v as int) {
                    let m = choose|m: int|
                        v <= m <= value@.len() && fits(
                            pattern@.skip(p + 1),
                            #[trigger] value@.skip(m),
                        );
                    if m > v {
                        assert(fits_later(pattern@.skip(p + 1), value@, v + 1));
                    }
                }
            }
            star = Some(p);
            checkpoint = v;
            p += 1;
        } else if p < pattern.len() && (pattern[p] == ANY || pattern[p] == value[v]) {
            p += 1;
            v += 1;
        } else if let Some(s) = star {
            assert(!here);
            proof {
                if fits_later(pattern@.skip(s + 1), value@, checkpoint + 1) {
                    let j = choose|j: int|
                        checkpoint + 1 <= j <= value@.len() && fits(
                            pattern@.skip(s + 1),
                            #[trigger] value@.skip(j),
                        );
                    if j > checkpoint + 1 {
                        assert(fits_later(pattern@.skip(s + 1), value@, checkpoint + 2));
                    }
                }
            }
            p = s + 1;
            checkpoint += 1;
            v = checkpoint;
        } else {
            return false;
        }
    }
    proof {
        if let Some(s) = star {
            if fits_later(pattern@.skip(s + 1), value@, checkpoint + 1) {
                let j = choose|j: int|
                    checkpoint + 1 <= j <= value@.len() && fits(
                        pattern@.skip(s + 1),
                        #[trigger] value@.skip(j),
                    );
                lemma_segment(pattern@, value@, s + 1, p as int, j);
            }
        }
    }
    let ghost nothing = value@.skip(v as int);
    while p < pattern.len() && pattern[p] == STAR
        invariant
            p <= pattern@.len(),
            nothing.len() == 0,
            fits(pattern@, value@) == fits(pattern@.skip(p as int), nothing),
        decreases pattern@.len() - p,
    {
        assert(pattern@.skip(p as int).drop_first() =~= pattern@.skip(p + 1));
        p += 1;
    }
    p == pattern.len()
}

/// Whether the bytes of `value` fit `pattern`.
pub fn wildcard_matches(pattern: &str, value: &str) -> (r: bool)
    ensures
        r == text_fits(pattern@, value@),
{
    bytes_fit(pattern.as_bytes(), value.as_bytes())
}

// ---------------------------------------------------------------------------
// Literal patterns
// ---------------------------------------------------------------------------

/// The bytes stand for nothing but themselves.
pub open spec fn is_literal(pattern: Seq<u8>) -> bool {
    forall|i: int|
        0 <= i < pattern.len() ==> #[trigger] pattern[i] != STAR && pattern[i] != ANY
}

proof fn lemma_literal(pattern: Seq<u8>, value: Seq<u8>)
    requires
        is_literal(pattern),
    ensures
        fits(pattern, value) == (pattern == value),
    decreases pattern.len(),
{
    if pattern.len() == 0 {
        assert(value.len() == 0 ==> pattern =~= value);
    } else if value.len() > 0 {
        let p = pattern.drop_first();
        let v = value.drop_first();
        assert forall|i: int| 0 <= i < p.len() implies #[trigger] p[i] != STAR && p[i] != ANY by {
            assert(p[i] == pattern[i + 1]);
        }
        lemma_literal(p, v);
        assert(pattern =~= seq![pattern[0]] + p);
        assert(value =~= seq![value[0]] + v);
        assert(pattern == value ==> p == v);
    }
}

/// The bytes of a character are that of `*` or of `?` only for that character.
proof fn lemma_bytes_of_char(c: char, k: int)
    requires
        c != '*',
        c != '?',
        0 <= k < vstd::utf8::encode_scalar(c as u32).len(),
    ensures
        vstd::utf8::encode_scalar(c as u32)[k] != STAR,
        vstd::utf8::encode_scalar(c as u32)[k] != ANY,
{
    let n = c as u32;
    assert(n != 42 && n != 63);
    assert(n <= 0x7F ==> (n & 0x7F) as u8 == n) by (bit_vector);
    assert(0xC0u8 | ((n >> 6) & 0x1F) as u8 >= 0x80) by (bit_vector);
    assert(0xE0u8 | ((n >> 12) & 0x0F) as u8 >= 0x80) by (bit_vector);
    assert(0xF0u8 | ((n >> 18) & 0x7) as u8 >= 0x80) by (bit_vector);
    assert(0x80u8 | (n & 0x3F) as u8 >= 0x80) by (bit_vector);
    assert(0x80u8 | ((n >> 6) & 0x3F) as u8 >= 0x80) by (bit_vector);
    assert(0x80u8 | ((n >> 12) & 0x3F) as u8 >= 0x80) by (bit_vector);
}

proof fn lemma_literal_bytes(pattern: Seq<char>)
    requires
        !pattern.contains('*'),
        !pattern.contains('?'),
    ensures
        is_literal(vstd::utf8::encode_utf8(pattern)),
    decreases pattern.len(),
{
    let bytes = vstd::utf8::encode_utf8(pattern);
    if pattern.len() > 0 {
        let first = vstd::utf8::encode_scalar(pattern[0] as u32);
        let rest = pattern.drop_first();
        assert(pattern.contains(pattern[0]));
        assert forall|c: char| rest.contains(c) implies pattern.contains(c) by {
            let i = choose|i: int| 0 <= i < rest.len() && rest[i] == c;
            assert(pattern[i + 1] == c);
        }
        lemma_literal_bytes(rest);
        assert forall|i: int| 0 <= i < bytes.len() implies #[trigger] bytes[i] != STAR && bytes[i]
            != ANY by {
            if i < first.len() {
                lemma_bytes_of_char(pattern[0], i);
            } else {
                assert(bytes[i] == vstd::utf8::encode_utf8(rest)[i - first.len()]);
            }
        }
    }
}

/// A pattern without `*` and `?` is fitted by itself and by nothing else.
pub proof fn lemma_literal_fits_only_itself(pattern: Seq<char>, value: Seq<char>)
    requires
        !pattern.contains('*'),
        !pattern.contains('?'),
    ensures
        text_fits(pattern, value) == (pattern == value),
{
    lemma_literal_bytes(pattern);
    lemma_literal(vstd::utf8::encode_utf8(pattern), vstd::utf8::encode_utf8(value));
    vstd::utf8::encode_utf8_decode_utf8(pattern);
    vstd::utf8::encode_utf8_decode_utf8(value);
}

proof fn lemma_star_takes_all(value: Seq<u8>)
    ensures
        fits(seq![STAR], value),
    decreases value.len(),
{
    let star = seq![STAR];
    if value.len() > 0 {
        lemma_star_takes_all(value.drop_first());
    } else {
        assert(star[0] == STAR);
        assert(fits(star.drop_first(), value));
    }
}

/// A literal with a `*` behind it is fitted by everything that begins with the literal.
pub proof fn lemma_star_at_the_end(literal: Seq<u8>, value: Seq<u8>)
    requires
        is_literal(literal),
    ensures
        fits(literal.push(STAR), value) == literal.is_prefix_of(value),
    decreases literal.len(),
{
    let pattern = literal.push(STAR);
    if literal.len() == 0 {
        assert(pattern =~= seq![STAR]);
        lemma_star_takes_all(value);
        assert(value.subrange(0, 0) =~= literal);
    } else if value.len() > 0 {
        let l = literal.drop_first();
        let v = value.drop_first();
        assert forall|i: int| 0 <= i < l.len() implies #[trigger] l[i] != STAR && l[i] != ANY by {
            assert(l[i] == literal[i + 1]);
        }
        lemma_star_at_the_end(l, v);
        assert(pattern[0] == literal[0]);
        assert(pattern.drop_first() =~= l.push(STAR));
        if literal.is_prefix_of(value) {
            assert(l =~= v.subrange(0, l.len() as int));
            assert(literal[0] == value[0]);
        }
        if l.is_prefix_of(v) && literal[0] == value[0] {
            assert(literal =~= value.subrange(0, literal.len() as int)) by {
                assert forall|i: int| 0 <= i < literal.len() implies literal[i] == value[i] by {
                    if i > 0 {
                        assert(l[i - 1] == v[i - 1]);
                    }
                }
            }
        }
    }
}

/// A pattern in two parts is fitted by what comes apart into a fit of each.
pub proof fn lemma_parts_fit(front: Seq<u8>, end: Seq<u8>, value: Seq<u8>)
    ensures
        fits(front + end, value) <==> exists|k: int|
            0 <= k <= value.len() && fits(front, #[trigger] value.take(k)) && fits(
                end,
                value.skip(k),
            ),
    decreases front.len(), value.len(),
{
    let whole = front + end;
    if front.len() == 0 {
        assert(whole =~= end);
        assert(value.skip(0) =~= value);
        assert(fits(front, value.take(0)));
    } else if front[0] == STAR {
        assert(whole[0] == STAR);
        assert(whole.drop_first() =~= front.drop_first() + end);
        lemma_parts_fit(front.drop_first(), end, value);
        if fits(front.drop_first() + end, value) {
            let k = choose|k: int|
                0 <= k <= value.len() && fits(front.drop_first(), #[trigger] value.take(k)) && fits(
                    end,
                    value.skip(k),
                );
            assert(fits(front, value.take(k)));
        }
        if value.len() > 0 {
            let tail = value.drop_first();
            lemma_parts_fit(front, end, tail);
            if fits(whole, tail) {
                let k = choose|k: int|
                    0 <= k <= tail.len() && fits(front, #[trigger] tail.take(k)) && fits(
                        end,
                        tail.skip(k),
                    );
                assert(value.take(k + 1).drop_first() =~= tail.take(k));
                assert(value.skip(k + 1) =~= tail.skip(k));
                assert(fits(front, value.take(k + 1)));
            }
        }
        assert forall|k: int|
            0 <= k <= value.len() && fits(front, #[trigger] value.take(k)) && fits(
                end,
                value.skip(k),
            ) implies fits(whole, value) by {
            if !fits(front.drop_first(), value.take(k)) {
                let tail = value.drop_first();
                assert(value.take(k).drop_first() =~= tail.take(k - 1));
                assert(value.skip(k) =~= tail.skip(k - 1));
                assert(fits(front, tail.take(k - 1)));
            }
        }
    } else {
        assert(whole[0] == front[0]);
        assert(whole.drop_first() =~= front.drop_first() + end);
        if value.len() > 0 {
            let tail = value.drop_first();
            lemma_parts_fit(front.drop_first(), end, tail);
            if fits(whole, value) {
                let k = choose|k: int|
                    0 <= k <= tail.len() && fits(front.drop_first(), #[trigger] tail.take(k))
                        && fits(end, tail.skip(k));
                assert(value.take(k + 1)[0] == value[0]);
                assert(value.take(k + 1).drop_first() =~= tail.take(k));
                assert(value.skip(k + 1) =~= tail.skip(k));
                assert(fits(front, value.take(k + 1)));
            }
            assert forall|k: int|
                0 <= k <= value.len() && fits(front, #[trigger] value.take(k)) && fits(
                    end,
                    value.skip(k),
                ) implies fits(whole, value) by {
                assert(k > 0);
                assert(value.take(k)[0] == value[0]);
                assert(value.take(k).drop_first() =~= tail.take(k - 1));
                assert(value.skip(k) =~= tail.skip(k - 1));
            }
        } else {
            assert forall|k: int|
                0 <= k <= value.len() && fits(front, #[trigger] value.take(k)) implies false by {
                assert(value.take(k).len() == 0);
            }
        }
    }
}

/// On its own `*` is fitted by everything, `?` by any one byte, and every other byte by
/// itself.
pub proof fn lemma_one_byte_fits(pattern: u8, value: Seq<u8>)
    ensures
        fits(seq![pattern], value) == (pattern == 42 || (value.len() == 1 && (pattern == 63
            || value[0] == pattern))),
        fits(Seq::empty(), value) == (value.len() == 0),
{
    let one = seq![pattern];
    if pattern == STAR {
        lemma_star_takes_all(value);
    } else {
        assert(one.drop_first() =~= Seq::empty());
        if value.len() > 0 {
            assert(fits(one.drop_first(), value.drop_first()) == (value.drop_first().len() == 0));
        }
    }
}

} // verus!
