//! Character-sequence utilities shared by the duration and document parsers:
//! locating separators, splitting on a separator, and trimming whitespace.

use vstd::prelude::*;

verus! {

/// Whitespace characters removed when a lyric line's text is trimmed.
pub open spec fn is_space(c: char) -> bool {
    c == ' ' || c == '\t' || c == '\r' || c == '\n' || c == '\u{b}' || c == '\u{c}'
}

/// Index of the first occurrence of `c` in `s`, or `s.len()` if absent.
pub open spec fn find_char(s: Seq<char>, c: char) -> int
    decreases s.len(),
{
    if s.len() == 0 {
        0
    } else if s[0] == c {
        0
    } else {
        1 + find_char(s.skip(1), c)
    }
}

pub proof fn lemma_find_char_props(s: Seq<char>, c: char)
    ensures
        0 <= find_char(s, c) <= s.len(),
        forall|i: int| 0 <= i < find_char(s, c) ==> s[i] != c,
        find_char(s, c) < s.len() ==> s[find_char(s, c)] == c,
    decreases s.len(),
{
    if s.len() == 0 {
    } else if s[0] == c {
    } else {
        lemma_find_char_props(s.skip(1), c);
        assert forall|i: int| 0 <= i < find_char(s, c) implies s[i] != c by {
            if i > 0 {
                assert(s.skip(1)[i - 1] == s[i]);
            }
        }
        if find_char(s, c) < s.len() {
            assert(s.skip(1)[find_char(s, c) - 1] == s[find_char(s, c)]);
        }
    }
}

pub proof fn lemma_find_char_is(s: Seq<char>, c: char, k: int)
    requires
        0 <= k <= s.len(),
        forall|i: int| 0 <= i < k ==> s[i] != c,
        k < s.len() ==> s[k] == c,
    ensures
        find_char(s, c) == k,
    decreases s.len(),
{
    if s.len() == 0 {
    } else if s[0] == c {
        assert(k == 0);
    } else {
        assert(k >= 1) by {
            if k == 0 {
                assert(s[0] == c);
            }
        }
        assert forall|i: int| 0 <= i < k - 1 implies s.skip(1)[i] != c by {
            assert(s.skip(1)[i] == s[i + 1]);
        }
        if k - 1 < s.skip(1).len() {
            assert(s.skip(1)[k - 1] == s[k]);
        }
        lemma_find_char_is(s.skip(1), c, k - 1);
    }
}

/// The pieces of `s` between occurrences of the separator `c`, as `str::split`
/// yields them: an empty input gives one empty piece, and `n` separators give
/// `n + 1` pieces.
pub open spec fn split_by(s: Seq<char>, c: char) -> Seq<Seq<char>>
    decreases s.len(),
{
    let i = find_char(s, c);
    if 0 <= i < s.len() {
        seq![s.take(i)] + split_by(s.skip(i + 1), c)
    } else {
        seq![s]
    }
}

pub proof fn lemma_split_by_len(s: Seq<char>, c: char)
    ensures
        split_by(s, c).len() >= 1,
    decreases s.len(),
{
    let i = find_char(s, c);
    lemma_find_char_props(s, c);
    if 0 <= i < s.len() {
        lemma_split_by_len(s.skip(i + 1), c);
    }
}

/// `s` with leading whitespace removed.
pub open spec fn trim_left(s: Seq<char>) -> Seq<char>
    decreases s.len(),
{
    if s.len() > 0 && is_space(s[0]) {
        trim_left(s.skip(1))
    } else {
        s
    }
}

/// `s` with trailing whitespace removed.
pub open spec fn trim_right(s: Seq<char>) -> Seq<char>
    decreases s.len(),
{
    if s.len() > 0 && is_space(s.last()) {
        trim_right(s.drop_last())
    } else {
        s
    }
}

/// `s` with whitespace removed from both ends.
pub open spec fn trim_spec(s: Seq<char>) -> Seq<char> {
    trim_right(trim_left(s))
}

pub proof fn lemma_trim_left_at(s: Seq<char>, k: int)
    requires
        0 <= k <= s.len(),
        forall|i: int| 0 <= i < k ==> is_space(s[i]),
        k < s.len() ==> !is_space(s[k]),
    ensures
        trim_left(s) == s.skip(k),
    decreases k,
{
    if k == 0 {
        assert(s.skip(0) =~= s);
    } else {
        assert(is_space(s[0]));
        assert forall|i: int| 0 <= i < k - 1 implies is_space(s.skip(1)[i]) by {
            assert(s.skip(1)[i] == s[i + 1]);
        }
        if k - 1 < s.skip(1).len() {
            assert(s.skip(1)[k - 1] == s[k]);
        }
        lemma_trim_left_at(s.skip(1), k - 1);
        assert(s.skip(1).skip(k - 1) =~= s.skip(k));
    }
}

pub proof fn lemma_trim_right_at(s: Seq<char>, k: int)
    requires
        0 <= k <= s.len(),
        forall|i: int| k <= i < s.len() ==> is_space(s[i]),
        k > 0 ==> !is_space(s[k - 1]),
    ensures
        trim_right(s) == s.take(k),
    decreases s.len(),
{
    if k == s.len() {
        assert(s.take(k) =~= s);
        if s.len() > 0 {
            assert(!is_space(s.last()));
        }
    } else {
        assert(is_space(s.last()));
        assert forall|i: int| k <= i < s.drop_last().len() implies is_space(s.drop_last()[i]) by {
            assert(s.drop_last()[i] == s[i]);
        }
        if k > 0 {
            assert(s.drop_last()[k - 1] == s[k - 1]);
        }
        lemma_trim_right_at(s.drop_last(), k);
        assert(s.drop_last().take(k) =~= s.take(k));
    }
}

/// Whether `c` is trimmed away at the ends of a lyric line's text.
pub fn is_space_char(c: char) -> (r: bool)
    ensures
        r == is_space(c),
{
    c == ' ' || c == '\t' || c == '\r' || c == '\n' || c == '\u{b}' || c == '\u{c}'
}

/// The characters of `s`, one by one.
pub fn str_chars(s: &str) -> (r: Vec<char>)
    ensures
        r@ == s@,
{
    let n = s.unicode_len();
    let mut r: Vec<char> = Vec::new();
    let mut i: usize = 0;
    while i < n
        invariant
            n == s@.len(),
            i <= n,
            r@ == s@.take(i as int),
        decreases n - i,
    {
        r.push(s.get_char(i));
        i = i + 1;
        assert(r@ =~= s@.take(i as int));
    }
    assert(s@.take(n as int) =~= s@);
    r
}

/// Whether two character vectors hold the same characters.
pub fn eq_chars(a: &Vec<char>, b: &Vec<char>) -> (r: bool)
    ensures
        r == (a@ == b@),
{
    if a.len() != b.len() {
        assert(a@ != b@);
        return false;
    }
    let n = a.len();
    let mut i: usize = 0;
    while i < n
        invariant
            n == a@.len() == b@.len(),
            i <= n,
            forall|k: int| 0 <= k < i ==> a@[k] == b@[k],
        decreases n - i,
    {
        if a[i] != b[i] {
            return false;
        }
        i = i + 1;
    }
    assert(a@ =~= b@);
    true
}

/// The half-open index ranges of the pieces that splitting `v` on `c` yields,
/// in order; piece `k` of `split_by(v@, c)` is `v@.subrange(r[k].0, r[k].1)`.
pub fn split_ranges(v: &Vec<char>, c: char) -> (r: Vec<(usize, usize)>)
    ensures
        r@.len() == split_by(v@, c).len(),
        forall|k: int|
            0 <= k < r@.len() ==> (#[trigger] r@[k]).0 <= r@[k].1 <= v@.len()
                && v@.subrange(r@[k].0 as int, r@[k].1 as int) == split_by(v@, c)[k],
{
    let n = v.len();
    let mut r: Vec<(usize, usize)> = Vec::new();
    let mut i: usize = 0;
    proof {
        assert(v@.skip(0) =~= v@);
        assert(r@.map_values(|p: (usize, usize)| v@.subrange(p.0 as int, p.1 as int))
            =~= Seq::<Seq<char>>::empty());
        assert(Seq::<Seq<char>>::empty() + split_by(v@, c) =~= split_by(v@, c));
    }
    loop
        invariant
            n == v@.len(),
            i <= n,
            split_by(v@, c) == r@.map_values(
                |p: (usize, usize)| v@.subrange(p.0 as int, p.1 as int),
            ) + split_by(v@.skip(i as int), c),
            forall|k: int| 0 <= k < r@.len() ==> (#[trigger] r@[k]).0 <= r@[k].1 <= i,
        decreases n - i + 1,
    {
        let mut j: usize = i;
        while j < n && v[j] != c
            invariant
                n == v@.len(),
                i <= j <= n,
                forall|k: int| i <= k < j ==> v@[k] != c,
            decreases n - j,
        {
            j = j + 1;
        }
        proof {
            let rest = v@.skip(i as int);
            assert forall|m: int| 0 <= m < j - i implies rest[m] != c by {
                assert(rest[m] == v@[i + m]);
            }
            if j < n {
                assert(rest[j - i] == v@[j as int]);
            }
            lemma_find_char_is(rest, c, j - i);
        }
        r.push((i, j));
        proof {
            let rest = v@.skip(i as int);
            let piece = v@.subrange(i as int, j as int);
            assert(rest.take(j - i) =~= piece);
            let mapped = r@.map_values(|p: (usize, usize)| v@.subrange(p.0 as int, p.1 as int));
            let prev = r@.drop_last().map_values(
                |p: (usize, usize)| v@.subrange(p.0 as int, p.1 as int),
            );
            assert(mapped =~= prev + seq![piece]);
            if j == n {
                assert(rest =~= piece);
                assert(split_by(rest, c) =~= seq![piece]);
                assert(split_by(v@, c) =~= mapped);
            } else {
                assert(rest.skip(j - i + 1) =~= v@.skip(j + 1));
                assert(split_by(rest, c) =~= seq![piece] + split_by(v@.skip(j + 1), c));
                assert(prev + (seq![piece] + split_by(v@.skip(j + 1), c)) =~= mapped + split_by(
                    v@.skip(j + 1),
                    c,
                ));
            }
        }
        if j == n {
            proof {
                assert forall|k: int|
                    0 <= k < r@.len() implies (#[trigger] r@[k]).0 <= r@[k].1 <= v@.len()
                        && v@.subrange(r@[k].0 as int, r@[k].1 as int) == split_by(v@, c)[k] by {
                    let mapped = r@.map_values(
                        |p: (usize, usize)| v@.subrange(p.0 as int, p.1 as int),
                    );
                    assert(split_by(v@, c)[k] == mapped[k]);
                }
            }
            return r;
        }
        i = j + 1;
        proof {
            assert forall|k: int| 0 <= k < r@.len() implies (#[trigger] r@[k]).0 <= r@[k].1
                <= i by {
                if k < r@.len() - 1 {
                    assert(r@[k] == r@.drop_last()[k]);
                }
            }
        }
    }
}

} // verus!
