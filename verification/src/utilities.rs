//! Flag-delimited text utilities: splitting a string on a flag character and
//! keeping the pieces that lie between paired flags, the inverse joining
//! operation, and small helpers over strings.

use vstd::prelude::*;
use vstd::string::StrSliceExecFns;

verus! {

/// The characters with the Unicode `White_Space` property; this is the set of
/// characters that trimming removes from the ends of the input.
pub open spec fn is_space_char(c: char) -> bool {
    let n = c as u32;
    n == 0x20 || (0x09 <= n && n <= 0x0D) || n == 0x85 || n == 0xA0 || n == 0x1680 || (0x2000 <= n
        && n <= 0x200A) || n == 0x2028 || n == 0x2029 || n == 0x202F || n == 0x205F || n == 0x3000
}

/// Runtime check for `is_space_char`.
pub fn is_space(c: char) -> (r: bool)
    ensures
        r == is_space_char(c),
{
    let n = c as u32;
    n == 0x20 || (0x09 <= n && n <= 0x0D) || n == 0x85 || n == 0xA0 || n == 0x1680 || (0x2000 <= n
        && n <= 0x200A) || n == 0x2028 || n == 0x2029 || n == 0x202F || n == 0x205F || n == 0x3000
}

/// The text with leading and trailing whitespace removed.
pub open spec fn trim_spec(s: Seq<char>) -> Seq<char>
    decreases s.len(),
{
    if s.len() == 0 {
        s
    } else if is_space_char(s[0]) {
        trim_spec(s.drop_first())
    } else if is_space_char(s.last()) {
        trim_spec(s.drop_last())
    } else {
        s
    }
}

/// A subrange whose complement is all whitespace and whose ends are not
/// whitespace is exactly the trimmed text.
proof fn lemma_trim_range(s: Seq<char>, lo: int, hi: int)
    requires
        0 <= lo <= hi <= s.len(),
        forall|i: int| 0 <= i < lo ==> is_space_char(#[trigger] s[i]),
        forall|i: int| hi <= i < s.len() ==> is_space_char(#[trigger] s[i]),
        lo < hi ==> !is_space_char(s[lo]),
        lo < hi ==> !is_space_char(s[hi - 1]),
    ensures
        trim_spec(s) == s.subrange(lo, hi),
    decreases s.len(),
{
    if s.len() == 0 {
        assert(trim_spec(s) =~= s.subrange(lo, hi));
    } else if is_space_char(s[0]) {
        if lo == 0 {
            // then lo == hi == 0: every character of s is whitespace
            assert(hi == 0);
            lemma_trim_range(s.drop_first(), 0, 0);
            assert(trim_spec(s) =~= s.subrange(lo, hi));
        } else {
            lemma_trim_range(s.drop_first(), lo - 1, hi - 1);
            assert(s.drop_first().subrange(lo - 1, hi - 1) =~= s.subrange(lo, hi));
        }
    } else if is_space_char(s.last()) {
        // s[0] is not whitespace, so lo == 0 and lo < hi, hence hi <= s.len() - 1
        assert(lo == 0);
        assert(hi < s.len());
        lemma_trim_range(s.drop_last(), lo, hi);
        assert(s.drop_last().subrange(lo, hi) =~= s.subrange(lo, hi));
    } else {
        assert(lo == 0);
        assert(hi == s.len());
        assert(trim_spec(s) =~= s.subrange(lo, hi));
    }
}

/// Remove leading and trailing whitespace.
pub fn trim_str<'a>(s: &'a str) -> (r: &'a str)
    ensures
        r@ == trim_spec(s@),
{
    let len = s.unicode_len();
    let mut lo: usize = 0;
    while lo < len && is_space(s.get_char(lo))
        invariant
            0 <= lo <= len,
            len == s@.len(),
            forall|i: int| 0 <= i < lo ==> is_space_char(#[trigger] s@[i]),
        decreases len - lo,
    {
        lo = lo + 1;
    }
    let mut hi: usize = len;
    while hi > lo && is_space(s.get_char(hi - 1))
        invariant
            lo <= hi <= len,
            len == s@.len(),
            forall|i: int| hi <= i < len ==> is_space_char(#[trigger] s@[i]),
        decreases hi,
    {
        hi = hi - 1;
    }
    proof {
        lemma_trim_range(s@, lo as int, hi as int);
    }
    s.substring_char(lo, hi)
}

/// The segments obtained by splitting the text at every occurrence of the
/// flag character.  There is always one segment more than there are flags,
/// and no segment contains the flag.
pub open spec fn split_on(s: Seq<char>, flag: char) -> Seq<Seq<char>>
    decreases s.len(),
{
    if s.len() == 0 {
        seq![Seq::<char>::empty()]
    } else if s[0] == flag {
        seq![Seq::<char>::empty()] + split_on(s.drop_first(), flag)
    } else {
        let rest = split_on(s.drop_first(), flag);
        rest.update(0, seq![s[0]] + rest[0])
    }
}

/// How many times the flag character occurs in the text.
pub open spec fn count_flags(s: Seq<char>, flag: char) -> nat
    decreases s.len(),
{
    if s.len() == 0 {
        0
    } else {
        (if s[0] == flag {
            1nat
        } else {
            0nat
        }) + count_flags(s.drop_first(), flag)
    }
}

/// Splitting a text with n flag occurrences yields n + 1 segments.
pub proof fn lemma_split_len(s: Seq<char>, flag: char)
    ensures
        split_on(s, flag).len() == count_flags(s, flag) + 1,
    decreases s.len(),
{
    if s.len() > 0 {
        lemma_split_len(s.drop_first(), flag);
    }
}

/// No segment of the split contains the flag character.
pub proof fn lemma_split_no_flag(s: Seq<char>, flag: char, j: int)
    requires
        0 <= j < split_on(s, flag).len(),
    ensures
        !split_on(s, flag)[j].contains(flag),
    decreases s.len(),
{
    if s.len() == 0 {
        assert(!split_on(s, flag)[j].contains(flag));
    } else {
        let s1 = s.drop_first();
        lemma_split_len(s1, flag);
        if s[0] == flag {
            if j > 0 {
                lemma_split_no_flag(s1, flag, j - 1);
                assert(split_on(s, flag)[j] == split_on(s1, flag)[j - 1]);
            }
        } else {
            lemma_split_no_flag(s1, flag, if j == 0 {
                0
            } else {
                j
            });
            if j == 0 {
                let rest = split_on(s1, flag);
                assert(split_on(s, flag)[0] == seq![s[0]] + rest[0]);
                assert forall|k: int| 0 <= k < split_on(s, flag)[0].len() implies split_on(
                    s,
                    flag,
                )[0][k] != flag by {
                    if k > 0 {
                        assert(split_on(s, flag)[0][k] == rest[0][k - 1]);
                        assert(!rest[0].contains(flag));
                    }
                }
            } else {
                assert(split_on(s, flag)[j] == split_on(s1, flag)[j]);
            }
        }
    }
}

/// Appending one character either starts a fresh empty segment (when it is
/// the flag) or extends the last segment.
proof fn lemma_split_push(s: Seq<char>, flag: char, c: char)
    ensures
        c == flag ==> split_on(s.push(c), flag) == split_on(s, flag).push(Seq::<char>::empty()),
        c != flag ==> split_on(s.push(c), flag) == split_on(s, flag).update(
            split_on(s, flag).len() - 1,
            split_on(s, flag).last().push(c),
        ),
    decreases s.len(),
{
    lemma_split_len(s, flag);
    if s.len() == 0 {
        assert(s.push(c).drop_first() =~= s);
        if c == flag {
            assert(split_on(s.push(c), flag) =~~= split_on(s, flag).push(Seq::<char>::empty()));
        } else {
            assert(split_on(s.push(c), flag) =~~= split_on(s, flag).update(
                split_on(s, flag).len() - 1,
                split_on(s, flag).last().push(c),
            ));
        }
    } else {
        assert(s.push(c).drop_first() =~= s.drop_first().push(c));
        lemma_split_push(s.drop_first(), flag, c);
        lemma_split_len(s.drop_first(), flag);
        if c == flag {
            assert(split_on(s.push(c), flag) =~~= split_on(s, flag).push(Seq::<char>::empty()));
        } else {
            assert(split_on(s.push(c), flag) =~~= split_on(s, flag).update(
                split_on(s, flag).len() - 1,
                split_on(s, flag).last().push(c),
            ));
        }
    }
}

/// Split the string at every occurrence of the flag character.
pub fn split_at_flags<'a>(s: &'a str, flag: char) -> (r: Vec<&'a str>)
    ensures
        r.deep_view() == split_on(s@, flag),
{
    let len = s.unicode_len();
    let mut r: Vec<&'a str> = Vec::new();
    let mut start: usize = 0;
    let mut i: usize = 0;
    proof {
        assert(s@.take(0) =~= Seq::<char>::empty());
        assert(split_on(s@.take(0), flag) =~~= r.deep_view().push(s@.subrange(0, 0)));
    }
    while i < len
        invariant
            0 <= start <= i <= len,
            len == s@.len(),
            split_on(s@.take(i as int), flag) == r.deep_view().push(
                s@.subrange(start as int, i as int),
            ),
        decreases len - i,
    {
        proof {
            assert(s@.take(i + 1) =~= s@.take(i as int).push(s@[i as int]));
            lemma_split_push(s@.take(i as int), flag, s@[i as int]);
        }
        if s.get_char(i) == flag {
            let piece = s.substring_char(start, i);
            r.push(piece);
            proof {
                assert(split_on(s@.take(i + 1), flag) =~~= r.deep_view().push(
                    s@.subrange(i + 1, i + 1),
                ));
            }
            start = i + 1;
        } else {
            proof {
                let before = split_on(s@.take(i as int), flag);
                assert(before.update(before.len() - 1, before.last().push(s@[i as int]))
                    =~~= r.deep_view().push(s@.subrange(start as int, i + 1)));
            }
        }
        i = i + 1;
    }
    let piece = s.substring_char(start, len);
    r.push(piece);
    proof {
        assert(s@.take(len as int) =~= s@);
    }
    r
}

/// The pieces that lie strictly between paired flags: of the split result,
/// the elements at odd index, the final segment never among them.
pub open spec fn between_pairs(segs: Seq<Seq<char>>) -> Seq<Seq<char>> {
    if segs.len() == 0 {
        Seq::<Seq<char>>::empty()
    } else {
        Seq::new(((segs.len() - 1) / 2) as nat, |i: int| segs[2 * i + 1])
    }
}

/// The index of the n-th occurrence (counting from 0) of the flag character.
pub open spec fn flag_pos(s: Seq<char>, flag: char, n: int) -> int
    decreases s.len(),
{
    if s.len() == 0 {
        0
    } else if s[0] == flag {
        if n == 0 {
            0
        } else {
            1 + flag_pos(s.drop_first(), flag, n - 1)
        }
    } else {
        1 + flag_pos(s.drop_first(), flag, n)
    }
}

/// Each flag occurrence lies inside the text, holds the flag character, and
/// the occurrences come in increasing order of position.
pub proof fn lemma_flag_pos(s: Seq<char>, flag: char, n: int)
    requires
        0 <= n < count_flags(s, flag),
    ensures
        0 <= flag_pos(s, flag, n) < s.len(),
        s[flag_pos(s, flag, n)] == flag,
        n > 0 ==> flag_pos(s, flag, n - 1) < flag_pos(s, flag, n),
    decreases s.len(),
{
    if s.len() > 0 {
        if s[0] == flag {
            if n > 0 {
                lemma_flag_pos(s.drop_first(), flag, n - 1);
            }
        } else {
            lemma_flag_pos(s.drop_first(), flag, n);
        }
    }
}

/// Each segment of the split is the text between its surrounding flag
/// occurrences: segment j runs from just after occurrence j - 1 (or the
/// start of the text) up to occurrence j (or the end of the text).
pub proof fn lemma_split_segments(s: Seq<char>, flag: char, j: int)
    requires
        0 <= j <= count_flags(s, flag),
    ensures
        ({
            let lo = if j == 0 {
                0
            } else {
                flag_pos(s, flag, j - 1) + 1
            };
            let hi = if j < count_flags(s, flag) {
                flag_pos(s, flag, j)
            } else {
                s.len() as int
            };
            0 <= lo <= hi <= s.len() && split_on(s, flag)[j] == s.subrange(lo, hi)
        }),
    decreases s.len(),
{
    let c = count_flags(s, flag) as int;
    let lo = if j == 0 {
        0
    } else {
        flag_pos(s, flag, j - 1) + 1
    };
    let hi = if j < c {
        flag_pos(s, flag, j)
    } else {
        s.len() as int
    };
    if j > 0 {
        lemma_flag_pos(s, flag, j - 1);
    }
    if j < c {
        lemma_flag_pos(s, flag, j);
    }
    lemma_split_len(s, flag);
    if s.len() == 0 {
        assert(split_on(s, flag)[j] =~= s.subrange(lo, hi));
    } else {
        let s1 = s.drop_first();
        lemma_split_len(s1, flag);
        if s[0] == flag {
            if j == 0 {
                assert(split_on(s, flag)[0] =~= s.subrange(0, 0));
            } else {
                lemma_split_segments(s1, flag, j - 1);
                let lo1 = if j - 1 == 0 {
                    0
                } else {
                    flag_pos(s1, flag, j - 2) + 1
                };
                let hi1 = if j - 1 < c - 1 {
                    flag_pos(s1, flag, j - 1)
                } else {
                    s1.len() as int
                };
                assert(split_on(s, flag)[j] == split_on(s1, flag)[j - 1]);
                assert(s1.subrange(lo1, hi1) =~= s.subrange(lo1 + 1, hi1 + 1));
                assert(lo == lo1 + 1);
                assert(hi == hi1 + 1);
            }
        } else {
            lemma_split_segments(s1, flag, j);
            let lo1 = if j == 0 {
                0
            } else {
                flag_pos(s1, flag, j - 1) + 1
            };
            let hi1 = if j < c {
                flag_pos(s1, flag, j)
            } else {
                s1.len() as int
            };
            let rest = split_on(s1, flag);
            if j == 0 {
                assert(split_on(s, flag)[0] == seq![s[0]] + rest[0]);
                assert(seq![s[0]] + s1.subrange(0, hi1) =~= s.subrange(0, hi1 + 1));
                assert(hi == hi1 + 1);
            } else {
                lemma_split_len(s1, flag);
                assert(split_on(s, flag)[j] == rest[j]);
                assert(s1.subrange(lo1, hi1) =~= s.subrange(lo1 + 1, hi1 + 1));
                assert(lo == lo1 + 1);
                assert(hi == hi1 + 1);
            }
        }
    }
}

/// For text with exactly 2k flag occurrences, the segmenter keeps exactly k
/// pieces, and the i-th piece (counting from 0) is the text strictly between
/// occurrence 2i and occurrence 2i + 1 of the flag.
pub proof fn lemma_even_flags_keep_pairs(s: Seq<char>, flag: char, k: nat)
    requires
        count_flags(s, flag) == 2 * k,
    ensures
        between_pairs(split_on(s, flag)).len() == k,
        forall|i: int|
            0 <= i < k ==> #[trigger] between_pairs(split_on(s, flag))[i] == s.subrange(
                flag_pos(s, flag, 2 * i) + 1,
                flag_pos(s, flag, 2 * i + 1),
            ),
{
    lemma_split_len(s, flag);
    assert forall|i: int|
        0 <= i < k implies #[trigger] between_pairs(split_on(s, flag))[i] == s.subrange(
        flag_pos(s, flag, 2 * i) + 1,
        flag_pos(s, flag, 2 * i + 1),
    ) by {
        lemma_split_segments(s, flag, 2 * i + 1);
        assert(between_pairs(split_on(s, flag))[i] == split_on(s, flag)[2 * i + 1]);
    }
}

/// For text with no flag occurrence at all, the segmenter returns nothing.
pub proof fn lemma_no_flags_empty_result(s: Seq<char>, flag: char)
    requires
        count_flags(s, flag) == 0,
    ensures
        between_pairs(split_on(s, flag)) == Seq::<Seq<char>>::empty(),
{
    lemma_split_len(s, flag);
    assert(between_pairs(split_on(s, flag)) =~= Seq::<Seq<char>>::empty());
}

/// For text with an odd number of flag occurrences, the trailing content
/// after the last flag is never included: every piece kept is a segment that
/// ends at a flag occurrence, while the trailing content forms the final
/// segment, whose index is the whole flag count.
pub proof fn lemma_odd_flags_drop_trailing(s: Seq<char>, flag: char)
    requires
        count_flags(s, flag) % 2 == 1,
    ensures
        between_pairs(split_on(s, flag)).len() == (count_flags(s, flag) - 1) / 2,
        forall|i: int|
            0 <= i < between_pairs(split_on(s, flag)).len() ==> #[trigger] between_pairs(
                split_on(s, flag),
            )[i] == split_on(s, flag)[2 * i + 1] && 2 * i + 1 < count_flags(s, flag),
{
    lemma_split_len(s, flag);
}

/// Breaks up a String that contains flag characters, saving the sections
/// between paired flags as elements of a vector that is then returned.
/// The input is first trimmed of surrounding whitespace; content after an
/// unpaired final flag is dropped.
pub fn util_flaggedtxt_2vec<'a>(txtstr: &'a String, flag: char) -> (r: Vec<&'a str>)
    ensures
        r.deep_view() == between_pairs(split_on(trim_spec(txtstr@), flag)),
{
    let usestring = trim_str(txtstr.as_str());
    let txtvec: Vec<&str> = split_at_flags(usestring, flag);
    let ghost segs = split_on(trim_spec(txtstr@), flag);
    let mut between_flags_vec: Vec<&'a str> = Vec::new();
    let m = txtvec.len();
    proof {
        lemma_split_len(trim_spec(txtstr@), flag);
        assert(between_flags_vec.deep_view() =~~= between_pairs(segs).take(0));
    }
    let mut i: usize = 1;
    while i < m - 1
        invariant
            txtvec.deep_view() == segs,
            m == segs.len(),
            m >= 1,
            1 <= i <= m,
            i % 2 == 1,
            between_flags_vec@.len() == (i - 1) as int / 2,
            forall|j: int|
                0 <= j < between_flags_vec@.len() ==> between_flags_vec@[j]@
                    == #[trigger] between_pairs(segs)[j],
        decreases m - i,
    {
        proof {
            assert(txtvec@[i as int]@ == txtvec.deep_view()[i as int]);
            assert(between_pairs(segs)[(i - 1) as int / 2] == segs[i as int]);
        }
        between_flags_vec.push(txtvec[i]);
        i = i + 2;
    }
    proof {
        if i < m {
            assert(i == m - 1);
        }
        assert((i - 1) as int / 2 == between_pairs(segs).len() as int);
        assert(between_flags_vec.deep_view() =~~= between_pairs(segs));
    }
    between_flags_vec
}

/// A piece with the flag character added on both sides.
pub open spec fn wrap_flag(s: Seq<char>, flag: char) -> Seq<char> {
    seq![flag] + s + seq![flag]
}

/// The pieces with every element at odd index wrapped in the flag character;
/// the elements at even index stay as they are.
pub open spec fn wrap_odd(pieces: Seq<Seq<char>>, flag: char) -> Seq<Seq<char>> {
    Seq::new(
        pieces.len(),
        |i: int|
            if i % 2 == 1 {
                wrap_flag(pieces[i], flag)
            } else {
                pieces[i]
            },
    )
}

/// All the pieces concatenated in order, with nothing in between.
pub open spec fn concat_all(pieces: Seq<Seq<char>>) -> Seq<char>
    decreases pieces.len(),
{
    if pieces.len() == 0 {
        Seq::<char>::empty()
    } else {
        concat_all(pieces.drop_last()) + pieces.last()
    }
}

/// Relies on `String::push`: appends the character at the end of the string.
#[verifier::external_body]
fn push_char(s: &mut String, c: char)
    ensures
        final(s)@ == old(s)@.push(c),
{
    s.push(c);
}

/// Concatenates a vector of Strings into one, wrapping every element at odd
/// index in the flag character first; the vector is left holding the wrapped
/// elements.
pub fn util_concat_strvec_flag(stringvec: &mut Vec<String>, flag: char) -> (newstring: String)
    ensures
        final(stringvec).deep_view() == wrap_odd(old(stringvec).deep_view(), flag),
        newstring@ == concat_all(wrap_odd(old(stringvec).deep_view(), flag)),
{
    let ghost pieces = stringvec.deep_view();
    let ghost target = wrap_odd(pieces, flag);
    let mut wrapped: Vec<String> = Vec::new();
    let mut joined = String::new();
    let mut i: usize = 0;
    proof {
        assert(concat_all(target.take(0)) =~= Seq::<char>::empty());
    }
    while i < stringvec.len()
        invariant
            stringvec.deep_view() == pieces,
            target == wrap_odd(pieces, flag),
            0 <= i <= pieces.len(),
            wrapped@.len() == i,
            forall|j: int| 0 <= j < i ==> wrapped@[j]@ == #[trigger] target[j],
            joined@ == concat_all(target.take(i as int)),
        decreases pieces.len() - i,
    {
        proof {
            assert(stringvec@[i as int]@ == stringvec.deep_view()[i as int]);
        }
        let piece: String = if i % 2 == 1 {
            let mut w = String::new();
            push_char(&mut w, flag);
            w.append(stringvec[i].as_str());
            push_char(&mut w, flag);
            proof {
                assert(w@ =~= wrap_flag(pieces[i as int], flag));
            }
            w
        } else {
            stringvec[i].clone()
        };
        joined.append(piece.as_str());
        wrapped.push(piece);
        proof {
            assert(target.take(i + 1).drop_last() =~= target.take(i as int));
            assert(joined@ == concat_all(target.take(i + 1)));
        }
        i = i + 1;
    }
    proof {
        assert(target.take(pieces.len() as int) =~= target);
        assert(wrapped.deep_view() =~~= target);
    }
    *stringvec = wrapped;
    joined
}

/// Concatenation distributes over appending piece sequences.
proof fn lemma_concat_all_append(x: Seq<Seq<char>>, y: Seq<Seq<char>>)
    ensures
        concat_all(x + y) == concat_all(x) + concat_all(y),
    decreases y.len(),
{
    if y.len() == 0 {
        assert(x + y =~= x);
        assert(concat_all(x) + concat_all(y) =~= concat_all(x));
    } else {
        assert((x + y).drop_last() =~= x + y.drop_last());
        lemma_concat_all_append(x, y.drop_last());
        assert(concat_all(x) + concat_all(y.drop_last()) + y.last() =~= concat_all(x) + concat_all(
            y,
        ));
    }
}

/// Text without the flag character splits into itself as the one segment.
proof fn lemma_split_flag_free(a: Seq<char>, flag: char)
    requires
        !a.contains(flag),
    ensures
        split_on(a, flag) == seq![a],
    decreases a.len(),
{
    if a.len() == 0 {
        assert(split_on(a, flag) =~~= seq![a]);
    } else {
        assert(a[0] != flag);
        assert(!a.drop_first().contains(flag)) by {
            if a.drop_first().contains(flag) {
                let i = choose|i: int| 0 <= i < a.drop_first().len() && a.drop_first()[i] == flag;
                assert(a[i + 1] == flag);
            }
        }
        lemma_split_flag_free(a.drop_first(), flag);
        assert(split_on(a, flag) =~~= seq![a]);
    }
}

/// Splitting text that starts with a flag-free stretch, a flag, and a
/// remainder yields that stretch as the first segment, then the split of the
/// remainder.
proof fn lemma_split_after_prefix(a: Seq<char>, b: Seq<char>, flag: char)
    requires
        !a.contains(flag),
    ensures
        split_on(a + seq![flag] + b, flag) == seq![a] + split_on(b, flag),
    decreases a.len(),
{
    let s = a + seq![flag] + b;
    if a.len() == 0 {
        assert(s[0] == flag);
        assert(s.drop_first() =~= b);
        assert(split_on(s, flag) =~~= seq![a] + split_on(b, flag));
    } else {
        assert(s[0] == a[0]);
        assert(a[0] != flag);
        assert(!a.drop_first().contains(flag)) by {
            if a.drop_first().contains(flag) {
                let i = choose|i: int| 0 <= i < a.drop_first().len() && a.drop_first()[i] == flag;
                assert(a[i + 1] == flag);
            }
        }
        assert(s.drop_first() =~= a.drop_first() + seq![flag] + b);
        lemma_split_after_prefix(a.drop_first(), b, flag);
        lemma_split_len(b, flag);
        assert(split_on(s, flag) =~~= seq![a] + split_on(b, flag));
    }
}

/// The joiner is the structural inverse of the split: wrapping the pieces at
/// odd index in flags and concatenating, then splitting at the flag, gives
/// the pieces back, and extracting the content between flag pairs gives back
/// exactly the pieces that were wrapped.  This holds when the pieces are an
/// odd-length alternation of outside and inside content and none of them
/// contains the flag character.
pub proof fn lemma_join_then_split(pieces: Seq<Seq<char>>, flag: char)
    requires
        pieces.len() % 2 == 1,
        forall|i: int| 0 <= i < pieces.len() ==> !(#[trigger] pieces[i]).contains(flag),
    ensures
        split_on(concat_all(wrap_odd(pieces, flag)), flag) == pieces,
        between_pairs(split_on(concat_all(wrap_odd(pieces, flag)), flag)) == Seq::new(
            (pieces.len() / 2) as nat,
            |i: int| pieces[2 * i + 1],
        ),
    decreases pieces.len(),
{
    if pieces.len() == 1 {
        assert(wrap_odd(pieces, flag) =~~= pieces);
        assert(concat_all(pieces) == concat_all(pieces.drop_last()) + pieces.last());
        assert(concat_all(pieces.drop_last()) + pieces.last() =~= pieces[0]);
        lemma_split_flag_free(pieces[0], flag);
        assert(split_on(concat_all(wrap_odd(pieces, flag)), flag) =~~= pieces);
    } else {
        let rest = pieces.skip(2);
        let head = seq![pieces[0], wrap_flag(pieces[1], flag)];
        assert(wrap_odd(pieces, flag) =~~= head + wrap_odd(rest, flag));
        lemma_concat_all_append(head, wrap_odd(rest, flag));
        let joined_rest = concat_all(wrap_odd(rest, flag));
        assert(head.drop_last() =~= seq![pieces[0]]);
        assert(seq![pieces[0]].drop_last() =~= Seq::<Seq<char>>::empty());
        assert(concat_all(Seq::<Seq<char>>::empty()) =~= Seq::<char>::empty());
        assert(Seq::<char>::empty() + pieces[0] =~= pieces[0]);
        assert(concat_all(seq![pieces[0]]) =~= pieces[0]);
        assert(concat_all(head) =~= pieces[0] + wrap_flag(pieces[1], flag));
        assert(concat_all(wrap_odd(pieces, flag)) =~= pieces[0] + seq![flag] + (pieces[1] + seq![
            flag,
        ] + joined_rest));
        lemma_split_after_prefix(pieces[0], pieces[1] + seq![flag] + joined_rest, flag);
        lemma_split_after_prefix(pieces[1], joined_rest, flag);
        lemma_join_then_split(rest, flag);
        assert(split_on(concat_all(wrap_odd(pieces, flag)), flag) =~~= pieces);
    }
    lemma_split_len(concat_all(wrap_odd(pieces, flag)), flag);
    assert(between_pairs(pieces) =~~= Seq::new((pieces.len() / 2) as nat, |i: int| pieces[2 * i + 1]));
}
pub open spec fn space_append(acc: Seq<char>, piece: Seq<char>) -> Seq<char> {
    let t = acc + piece;
    if t.len() > 0 && t.last() == ' ' {
        t
    } else {
        t.push(' ')
    }
}

/// The pieces concatenated in order, each followed by a single space unless
/// the text so far already ends in one.
pub open spec fn space_join(pieces: Seq<Seq<char>>) -> Seq<char>
    decreases pieces.len(),
{
    if pieces.len() == 0 {
        Seq::<char>::empty()
    } else {
        space_append(space_join(pieces.drop_last()), pieces.last())
    }
}

/// Concatenate a vector of Strings into a single String that is then
/// returned, keeping a single trailing space after each appended element.
pub fn util_concat_strvec(stringvec: &Vec<String>) -> (newstring: String)
    ensures
        newstring@ == space_join(stringvec.deep_view()),
{
    let ghost pieces = stringvec.deep_view();
    let mut newstring = String::new();
    let mut i: usize = 0;
    proof {
        assert(pieces.take(0) =~= Seq::<Seq<char>>::empty());
    }
    while i < stringvec.len()
        invariant
            stringvec.deep_view() == pieces,
            0 <= i <= pieces.len(),
            newstring@ == space_join(pieces.take(i as int)),
        decreases pieces.len() - i,
    {
        proof {
            assert(stringvec@[i as int]@ == stringvec.deep_view()[i as int]);
        }
        newstring.append(stringvec[i].as_str());
        let len = newstring.as_str().unicode_len();
        if len == 0 || newstring.as_str().get_char(len - 1) != ' ' {
            proof {
                reveal_strlit(" ");
            }
            newstring.append(" ");
            proof {
                assert((space_join(pieces.take(i as int)) + pieces[i as int]).push(' ') =~= space_join(
                    pieces.take(i as int),
                ) + pieces[i as int] + " "@);
            }
        }
        proof {
            assert(pieces.take(i + 1).drop_last() =~= pieces.take(i as int));
            assert(newstring@ == space_join(pieces.take(i + 1)));
        }
        i = i + 1;
    }
    proof {
        assert(pieces.take(pieces.len() as int) =~= pieces);
    }
    newstring
}

/// Returns the very last character of a String, or nothing when the string
/// is empty.
pub fn util_get_lastchar(newstr: &String) -> (r: Option<char>)
    ensures
        r == if newstr@.len() == 0 {
            None::<char>
        } else {
            Some(newstr@.last())
        },
{
    let len = newstr.as_str().unicode_len();
    if len == 0 {
        None
    } else {
        Some(newstr.as_str().get_char(len - 1))
    }
}

} // verus!
