//! The duration parser: a `"mm:ss"`-shaped string becomes a whole number of
//! seconds. Both fields must be non-empty runs of decimal digits; there is no
//! upper bound on the seconds field, so `"1:75"` is accepted and yields 135.

use vstd::prelude::*;

use crate::text::{find_char, lemma_find_char_is, lemma_find_char_props, lemma_split_by_len,
    split_by, str_chars};

verus! {

/// Why a duration string was rejected: the wrong number of `:`-separated
/// fields, or a field that is not a representable non-negative number.
#[derive(Clone, Copy, Debug, PartialEq, Eq, Structural)]
pub enum ParseError {
    InvalidFormat,
    InvalidNumber,
}

pub open spec fn is_digit_char(c: char) -> bool {
    48 <= c as u32 <= 57
}

pub open spec fn digit_val(c: char) -> int {
    c as u32 - 48
}

/// A non-empty, all-digit character sequence.
pub open spec fn is_number(s: Seq<char>) -> bool {
    s.len() > 0 && forall|i: int| 0 <= i < s.len() ==> is_digit_char(s[i])
}

/// The value of a digit sequence read in base ten.
pub open spec fn number_val(s: Seq<char>) -> int
    decreases s.len(),
{
    if s.len() == 0 {
        0
    } else {
        number_val(s.drop_last()) * 10 + digit_val(s.last())
    }
}

pub proof fn lemma_number_val_nonneg(s: Seq<char>)
    requires
        forall|i: int| 0 <= i < s.len() ==> is_digit_char(s[i]),
    ensures
        number_val(s) >= 0,
    decreases s.len(),
{
    if s.len() > 0 {
        assert(forall|i: int| 0 <= i < s.drop_last().len() ==> is_digit_char(s.drop_last()[i]));
        lemma_number_val_nonneg(s.drop_last());
    }
}

pub proof fn lemma_number_val_prefix(s: Seq<char>, k: int)
    requires
        forall|i: int| 0 <= i < s.len() ==> is_digit_char(s[i]),
        0 <= k <= s.len(),
    ensures
        number_val(s.take(k)) <= number_val(s),
    decreases s.len() - k,
{
    if k == s.len() {
        assert(s.take(k) =~= s);
    } else {
        assert(s.take(k + 1).drop_last() =~= s.take(k));
        assert(s.take(k + 1).last() == s[k]);
        assert(forall|i: int| 0 <= i < s.take(k).len() ==> is_digit_char(s.take(k)[i]));
        lemma_number_val_nonneg(s.take(k));
        assert(number_val(s.take(k + 1)) >= number_val(s.take(k)));
        lemma_number_val_prefix(s, k + 1);
    }
}

/// A well-shaped duration: exactly two `:`-separated fields, both numbers.
pub open spec fn is_mmss(s: Seq<char>) -> bool {
    let p = split_by(s, ':');
    p.len() == 2 && is_number(p[0]) && is_number(p[1])
}

/// The number of seconds a well-shaped duration denotes.
pub open spec fn mmss_value(s: Seq<char>) -> int
    recommends
        is_mmss(s),
{
    let p = split_by(s, ':');
    number_val(p[0]) * 60 + number_val(p[1])
}

/// Reads `v[from..to]` as a base-ten number, refusing anything that is not a
/// non-empty digit run whose value fits in `u32`.
fn parse_number(v: &Vec<char>, from: usize, to: usize) -> (r: Option<u32>)
    requires
        from <= to <= v.len(),
    ensures
        ({
            let sub = v@.subrange(from as int, to as int);
            match r {
                Some(n) => is_number(sub) && n as int == number_val(sub),
                None => !(is_number(sub) && number_val(sub) <= u32::MAX),
            }
        }),
{
    let ghost sub = v@.subrange(from as int, to as int);
    if from == to {
        return None;
    }
    let mut acc: u32 = 0;
    let mut i: usize = from;
    while i < to
        invariant
            from <= i <= to <= v@.len(),
            sub == v@.subrange(from as int, to as int),
            forall|k: int| from <= k < i ==> is_digit_char(v@[k]),
            acc as int == number_val(v@.subrange(from as int, i as int)),
        decreases to - i,
    {
        let c = v[i];
        let u = c as u32;
        if u < 48 || u > 57 {
            proof {
                assert(sub[i - from] == v@[i as int]);
                assert(!is_digit_char(sub[i - from]));
            }
            return None;
        }
        let d: u32 = u - 48;
        let wide: u64 = acc as u64 * 10 + d as u64;
        proof {
            let pre = v@.subrange(from as int, i as int);
            let pre1 = v@.subrange(from as int, i + 1);
            assert(pre1.drop_last() =~= pre);
            assert(pre1.last() == v@[i as int]);
            assert(c == v@[i as int]);
            assert(d as int == digit_val(c));
            assert(wide as int == acc as int * 10 + d as int);
            assert(number_val(pre1) == number_val(pre) * 10 + digit_val(pre1.last()));
            assert(wide as int == number_val(pre1));
        }
        if wide > u32::MAX as u64 {
            proof {
                if is_number(sub) {
                    assert(sub.take(i + 1 - from) =~= v@.subrange(from as int, i + 1));
                    lemma_number_val_prefix(sub, i + 1 - from);
                }
            }
            return None;
        }
        acc = wide as u32;
        i = i + 1;
    }
    proof {
        assert(v@.subrange(from as int, i as int) =~= sub);
        assert forall|k: int| 0 <= k < sub.len() implies is_digit_char(sub[k]) by {
            assert(sub[k] == v@[from + k]);
        }
    }
    Some(acc)
}

/// Reads `v[from..to]` as a `"mm:ss"` duration.
pub(crate) fn parse_duration_range(v: &Vec<char>, from: usize, to: usize) -> (r: Result<
    u32,
    ParseError,
>)
    requires
        from <= to <= v.len(),
    ensures
        ({
            let sub = v@.subrange(from as int, to as int);
            let p = split_by(sub, ':');
            match r {
                Ok(n) => is_mmss(sub) && n as int == mmss_value(sub),
                Err(ParseError::InvalidFormat) => p.len() != 2,
                Err(ParseError::InvalidNumber) => p.len() == 2 && !(is_number(p[0]) && is_number(
                    p[1],
                ) && mmss_value(sub) <= u32::MAX),
            }
        }),
{
    let ghost sub = v@.subrange(from as int, to as int);
    let mut j: usize = from;
    while j < to && v[j] != ':'
        invariant
            from <= j <= to <= v@.len(),
            forall|k: int| from <= k < j ==> v@[k] != ':',
        decreases to - j,
    {
        j = j + 1;
    }
    proof {
        assert forall|m: int| 0 <= m < j - from implies sub[m] != ':' by {
            assert(sub[m] == v@[from + m]);
        }
        if j < to {
            assert(sub[j - from] == v@[j as int]);
        }
        lemma_find_char_is(sub, ':', j - from);
    }
    if j == to {
        proof {
            assert(split_by(sub, ':').len() == 1);
        }
        return Err(ParseError::InvalidFormat);
    }
    let mut k2: usize = j + 1;
    while k2 < to && v[k2] != ':'
        invariant
            j + 1 <= k2 <= to <= v@.len(),
            forall|k: int| j + 1 <= k < k2 ==> v@[k] != ':',
        decreases to - k2,
    {
        k2 = k2 + 1;
    }
    let ghost rest = sub.skip(j - from + 1);
    proof {
        assert(rest =~= v@.subrange(j + 1, to as int));
    }
    if k2 < to {
        proof {
            let fr = find_char(rest, ':');
            lemma_find_char_props(rest, ':');
            assert(rest[k2 - (j + 1)] == v@[k2 as int]);
            assert(rest[k2 - (j + 1)] == ':');
            assert(fr <= k2 - (j + 1)) by {
                if fr > k2 - (j + 1) {
                    assert(rest[k2 - (j + 1)] != ':');
                }
            }
            assert(0 <= fr < rest.len());
            lemma_split_by_len(rest.skip(fr + 1), ':');
            assert(split_by(rest, ':') == seq![rest.take(fr)] + split_by(rest.skip(fr + 1), ':'));
            assert(split_by(rest, ':').len() >= 2);
            assert(0 <= j - from < sub.len());
            assert(split_by(sub, ':') == seq![sub.take(j - from)] + split_by(rest, ':'));
            assert(split_by(sub, ':').len() >= 3);
        }
        return Err(ParseError::InvalidFormat);
    }
    proof {
        assert forall|m: int| 0 <= m < rest.len() implies rest[m] != ':' by {
            assert(rest[m] == v@[j + 1 + m]);
        }
        lemma_find_char_is(rest, ':', rest.len() as int);
        assert(split_by(rest, ':') =~= seq![rest]);
        assert(split_by(sub, ':') =~= seq![sub.take(j - from), rest]);
        assert(sub.take(j - from) =~= v@.subrange(from as int, j as int));
    }
    let m = parse_number(v, from, j);
    let s = parse_number(v, j + 1, to);
    proof {
        let p = split_by(sub, ':');
        assert(p[0] == v@.subrange(from as int, j as int));
        assert(p[1] == v@.subrange(j + 1, to as int));
    }
    match (m, s) {
        (Some(mv), Some(sv)) => {
            let total: u64 = mv as u64 * 60 + sv as u64;
            if total > u32::MAX as u64 {
                proof {
                    let p = split_by(sub, ':');
                    lemma_number_val_nonneg(p[0]);
                    lemma_number_val_nonneg(p[1]);
                }
                Err(ParseError::InvalidNumber)
            } else {
                Ok(total as u32)
            }
        },
        _ => {
            proof {
                let p = split_by(sub, ':');
                if is_number(p[0]) && is_number(p[1]) {
                    lemma_number_val_nonneg(p[0]);
                    lemma_number_val_nonneg(p[1]);
                }
            }
            Err(ParseError::InvalidNumber)
        },
    }
}

/// Parses a `"mm:ss"` string into whole seconds: `Ok(minutes * 60 + seconds)`
/// exactly when the string has two `:`-separated all-digit fields and the
/// total fits in `u32`; `InvalidFormat` when the field count is wrong, and
/// `InvalidNumber` when a field is empty, non-numeric or too large.
pub fn parse_duration(time_str: &str) -> (r: Result<u32, ParseError>)
    ensures
        ({
            let p = split_by(time_str@, ':');
            match r {
                Ok(n) => is_mmss(time_str@) && n as int == mmss_value(time_str@),
                Err(ParseError::InvalidFormat) => p.len() != 2,
                Err(ParseError::InvalidNumber) => p.len() == 2 && !(is_number(p[0]) && is_number(
                    p[1],
                ) && mmss_value(time_str@) <= u32::MAX),
            }
        }),
{
    let chars = str_chars(time_str);
    let r = parse_duration_range(&chars, 0, chars.len());
    proof {
        assert(chars@.subrange(0, chars@.len() as int) =~= time_str@);
    }
    r
}

} // verus!
