//! The lyric index: a table from a whole-second timestamp to the lyric line
//! that starts there, together with the document parser that builds it and
//! the resolver that picks the line active at a playback position.

use vstd::prelude::*;

use crate::duration::{is_mmss, mmss_value, ParseError};
use crate::text::{find_char, is_space, is_space_char, lemma_find_char_is, lemma_trim_left_at,
    lemma_trim_right_at, split_by, split_ranges, str_chars, trim_spec};
use vstd::string::StringExecFns;
use vstd::string::StrSliceExecFns;

verus! {

/// One lyric line: the second it starts at and its trimmed, non-empty text.
pub struct LyricLine {
    pub time: u32,
    pub text: String,
}

/// Lyric text as the index stores it: non-empty, with no whitespace at
/// either end.
pub open spec fn valid_text(t: Seq<char>) -> bool {
    t.len() > 0 && !is_space(t[0]) && !is_space(t[t.len() - 1])
}

/// The mapping that a sequence of lines denotes; a later entry overwrites an
/// earlier one with the same timestamp.
pub open spec fn entries_map(s: Seq<LyricLine>) -> Map<int, Seq<char>>
    decreases s.len(),
{
    if s.len() == 0 {
        Map::empty()
    } else {
        entries_map(s.drop_last()).insert(s.last().time as int, s.last().text@)
    }
}

/// Whether some line in `s` starts at second `t`.
pub open spec fn has_time(s: Seq<LyricLine>, t: int) -> bool {
    exists|i: int| 0 <= i < s.len() && (#[trigger] s[i]).time as int == t
}

/// No two lines share a timestamp.
pub open spec fn unique_times(s: Seq<LyricLine>) -> bool {
    forall|i: int, j: int| 0 <= i < j < s.len() ==> (#[trigger] s[i]).time != (#[trigger] s[j]).time
}

pub proof fn lemma_entries_map_dom(s: Seq<LyricLine>)
    ensures
        forall|t: int| entries_map(s).dom().contains(t) <==> has_time(s, t),
    decreases s.len(),
{
    if s.len() > 0 {
        lemma_entries_map_dom(s.drop_last());
        assert forall|t: int| entries_map(s).dom().contains(t) implies has_time(s, t) by {
            if t == s.last().time as int {
                assert(s[s.len() - 1].time as int == t);
            } else {
                assert(entries_map(s.drop_last()).dom().contains(t));
                assert(has_time(s.drop_last(), t));
                let i = choose|i: int|
                    0 <= i < s.drop_last().len() && (#[trigger] s.drop_last()[i]).time as int == t;
                assert(s.drop_last()[i] == s[i]);
                assert(s[i].time as int == t);
            }
        }
        assert forall|t: int| has_time(s, t) implies entries_map(s).dom().contains(t) by {
            let i = choose|i: int| 0 <= i < s.len() && (#[trigger] s[i]).time as int == t;
            if i < s.len() - 1 {
                assert(s.drop_last()[i].time as int == t);
                assert(has_time(s.drop_last(), t));
                assert(entries_map(s.drop_last()).dom().contains(t));
            } else {
                assert(t == s.last().time as int);
            }
        }
    }
}

pub proof fn lemma_entries_map_card(s: Seq<LyricLine>)
    requires
        unique_times(s),
    ensures
        entries_map(s).dom().finite(),
        entries_map(s).dom().len() == s.len(),
    decreases s.len(),
{
    if s.len() > 0 {
        assert(unique_times(s.drop_last())) by {
            assert(forall|i: int, j: int|
                0 <= i < j < s.drop_last().len() ==> (#[trigger] s.drop_last()[i]).time != (
                #[trigger] s.drop_last()[j]).time);
        }
        lemma_entries_map_card(s.drop_last());
        lemma_entries_map_dom(s.drop_last());
        let t = s.last().time as int;
        assert(!has_time(s.drop_last(), t)) by {
            if has_time(s.drop_last(), t) {
                let i = choose|i: int|
                    0 <= i < s.drop_last().len() && (#[trigger] s.drop_last()[i]).time as int == t;
                assert(s[i].time == s[s.len() - 1].time);
            }
        }
        assert(!entries_map(s.drop_last()).dom().contains(t));
    }
}

pub proof fn lemma_entries_map_index(s: Seq<LyricLine>, i: int)
    requires
        unique_times(s),
        0 <= i < s.len(),
    ensures
        entries_map(s).dom().contains(s[i].time as int),
        entries_map(s)[s[i].time as int] == s[i].text@,
    decreases s.len(),
{
    if i == s.len() - 1 {
    } else {
        assert(unique_times(s.drop_last())) by {
            assert(forall|m: int, j: int|
                0 <= m < j < s.drop_last().len() ==> (#[trigger] s.drop_last()[m]).time != (
                #[trigger] s.drop_last()[j]).time);
        }
        assert(s.drop_last()[i] == s[i]);
        lemma_entries_map_index(s.drop_last(), i);
        assert(s[i].time != s[s.len() - 1].time);
    }
}

/// The timestamp-keyed lyric table for one track. Timestamps are unique;
/// every stored text is trimmed and non-empty.
pub struct LyricIndex {
    entries: Vec<LyricLine>,
}

impl View for LyricIndex {
    type V = Map<int, Seq<char>>;

    closed spec fn view(&self) -> Map<int, Seq<char>> {
        entries_map(self.entries@)
    }
}

impl LyricIndex {
    pub closed spec fn wf(&self) -> bool {
        unique_times(self.entries@) && forall|i: int|
            0 <= i < self.entries@.len() ==> valid_text((#[trigger] self.entries@[i]).text@)
    }

    /// An index with no lines.
    pub fn new() -> (r: LyricIndex)
        ensures
            r.wf(),
            r@ == Map::<int, Seq<char>>::empty(),
    {
        LyricIndex { entries: Vec::new() }
    }

    /// Number of lines in the index.
    pub fn len(&self) -> (r: usize)
        requires
            self.wf(),
        ensures
            r == self@.dom().len(),
            self@.dom().finite(),
    {
        proof {
            lemma_entries_map_card(self.entries@);
        }
        self.entries.len()
    }

    /// The text at second `time`, if a line starts exactly there.
    pub fn lookup(&self, time: u32) -> (r: Option<&String>)
        requires
            self.wf(),
        ensures
            match r {
                Some(text) => self@.dom().contains(time as int) && self@[time as int] == text@,
                None => !self@.dom().contains(time as int),
            },
    {
        let n = self.entries.len();
        let mut k: usize = 0;
        while k < n
            invariant
                n == self.entries@.len(),
                k <= n,
                self.wf(),
                forall|m: int| 0 <= m < k ==> (#[trigger] self.entries@[m]).time != time,
            decreases n - k,
        {
            if self.entries[k].time == time {
                proof {
                    lemma_entries_map_index(self.entries@, k as int);
                }
                return Some(&self.entries[k].text);
            }
            k = k + 1;
        }
        proof {
            lemma_entries_map_dom(self.entries@);
            if has_time(self.entries@, time as int) {
                let i = choose|i: int|
                    0 <= i < self.entries@.len() && (#[trigger] self.entries@[i]).time as int
                        == time as int;
                assert(self.entries@[i].time != time);
            }
        }
        None
    }

    /// Adds a line, overwriting any line already at the same second.
    pub(crate) fn insert_entry(&mut self, time: u32, text: String)
        requires
            old(self).wf(),
            valid_text(text@),
        ensures
            final(self).wf(),
            final(self)@ == old(self)@.insert(time as int, text@),
    {
        let ghost s0 = self.entries@;
        let ghost etext = text@;
        let n = self.entries.len();
        let mut k: usize = 0;
        while k < n
            invariant
                n == self.entries@.len(),
                k <= n,
                self.entries@ == s0,
                old(self).wf(),
                s0 == old(self).entries@,
                text@ == etext,
                valid_text(etext),
                forall|m: int| 0 <= m < k ==> (#[trigger] self.entries@[m]).time != time,
            decreases n - k,
        {
            if self.entries[k].time == time {
                let e = LyricLine { time, text };
                let ghost ge = e;
                proof {
                    lemma_entries_map_update(s0, k as int, ge);
                }
                self.entries[k] = e;
                proof {
                    assert(self.entries@ =~= s0.update(k as int, ge));
                    assert forall|i: int|
                        0 <= i < self.entries@.len() implies valid_text(
                        (#[trigger] self.entries@[i]).text@,
                    ) by {
                        if i != k {
                            assert(self.entries@[i] == s0[i]);
                        } else {
                            assert(self.entries@[i] == ge);
                            assert(ge.text@ == etext);
                        }
                    }
                }
                return;
            }
            k = k + 1;
        }
        let e = LyricLine { time, text };
        let ghost ge = e;
        self.entries.push(e);
        proof {
            assert(self.entries@.drop_last() =~= s0);
            assert(self.entries@.last() == ge);
            assert(unique_times(self.entries@)) by {
                assert forall|i: int, j: int|
                    0 <= i < j < self.entries@.len() implies (#[trigger] self.entries@[i]).time != (
                #[trigger] self.entries@[j]).time by {
                    if j < self.entries@.len() - 1 {
                        assert(self.entries@[i] == s0[i] && self.entries@[j] == s0[j]);
                    } else {
                        assert(self.entries@[i] == s0[i]);
                    }
                }
            }
            assert forall|i: int|
                0 <= i < self.entries@.len() implies valid_text(
                (#[trigger] self.entries@[i]).text@,
            ) by {
                if i < self.entries@.len() - 1 {
                    assert(self.entries@[i] == s0[i]);
                } else {
                    assert(self.entries@[i] == ge);
                    assert(ge.text@ == etext);
                }
            }
        }
    }
}

/// What one line of a lyric document contributes: its whole-second timestamp
/// and trimmed text, or nothing when the line has no leading `[`, no closing
/// `]`, a timestamp that is not a valid duration, or no text after trimming.
/// Any fraction after the first `.` in the bracketed segment is discarded.
pub open spec fn line_entry(l: Seq<char>) -> Option<(int, Seq<char>)> {
    if l.len() == 0 || l[0] != '[' {
        None
    } else {
        let j = find_char(l, ']');
        if j == l.len() {
            None
        } else {
            let ts = l.subrange(1, j);
            let ts2 = ts.take(find_char(ts, '.'));
            if is_mmss(ts2) && mmss_value(ts2) <= u32::MAX {
                let text = trim_spec(l.skip(j + 1));
                if text.len() > 0 {
                    Some((mmss_value(ts2), text))
                } else {
                    None
                }
            } else {
                None
            }
        }
    }
}

/// The index that results from folding each line's contribution, in document
/// order, into `m`; a later line overwrites an earlier one at the same second.
pub open spec fn index_after_lines(m: Map<int, Seq<char>>, lines: Seq<Seq<char>>) -> Map<
    int,
    Seq<char>,
>
    decreases lines.len(),
{
    if lines.len() == 0 {
        m
    } else {
        let m1 = match line_entry(lines[0]) {
            Some(e) => m.insert(e.0, e.1),
            None => m,
        };
        index_after_lines(m1, lines.skip(1))
    }
}

/// The index a whole document denotes, starting from `m`.
pub open spec fn doc_index(m: Map<int, Seq<char>>, doc: Seq<char>) -> Map<int, Seq<char>> {
    index_after_lines(m, split_by(doc, '\n'))
}

/// Reads one line, `chars[start..end]`, of a document held in `content`.
fn parse_line(content: &str, chars: &Vec<char>, start: usize, end: usize) -> (r: Option<
    (u32, String),
>)
    requires
        chars@ == content@,
        start <= end <= chars.len(),
    ensures
        ({
            let l = chars@.subrange(start as int, end as int);
            match r {
                Some(e) => line_entry(l) == Some((e.0 as int, e.1@)) && valid_text(e.1@),
                None => line_entry(l) is None,
            }
        }),
{
    let ghost l = chars@.subrange(start as int, end as int);
    if start == end {
        return None;
    }
    if chars[start] != '[' {
        proof {
            assert(l[0] == chars@[start as int]);
        }
        return None;
    }
    let mut j: usize = start;
    while j < end && chars[j] != ']'
        invariant
            start <= j <= end <= chars@.len(),
            forall|k: int| start <= k < j ==> chars@[k] != ']',
        decreases end - j,
    {
        j = j + 1;
    }
    proof {
        assert forall|m: int| 0 <= m < j - start implies l[m] != ']' by {
            assert(l[m] == chars@[start + m]);
        }
        if j < end {
            assert(l[j - start] == chars@[j as int]);
        }
        lemma_find_char_is(l, ']', j - start);
    }
    if j == end {
        return None;
    }
    let mut d: usize = start + 1;
    while d < j && chars[d] != '.'
        invariant
            start + 1 <= d <= j <= chars@.len(),
            forall|k: int| start + 1 <= k < d ==> chars@[k] != '.',
        decreases j - d,
    {
        d = d + 1;
    }
    let ghost ts = l.subrange(1, j - start);
    let ghost ts2 = ts.take(find_char(ts, '.'));
    proof {
        assert(ts =~= chars@.subrange(start + 1, j as int));
        assert forall|m: int| 0 <= m < d - (start + 1) implies ts[m] != '.' by {
            assert(ts[m] == chars@[start + 1 + m]);
        }
        if d < j {
            assert(ts[d - (start + 1)] == chars@[d as int]);
        }
        lemma_find_char_is(ts, '.', d - (start + 1));
        assert(ts2 =~= chars@.subrange(start + 1, d as int));
    }
    let dur = crate::duration::parse_duration_range(chars, start + 1, d);
    match dur {
        Err(e) => {
            proof {
                if e == ParseError::InvalidFormat {
                    assert(!is_mmss(ts2));
                }
            }
            None
        },
        Ok(t) => {
            let mut a: usize = j + 1;
            while a < end && is_space_char(chars[a])
                invariant
                    j + 1 <= a <= end <= chars@.len(),
                    forall|k: int| j + 1 <= k < a ==> is_space(chars@[k]),
                decreases end - a,
            {
                a = a + 1;
            }
            let mut b: usize = end;
            while b > a && is_space_char(chars[b - 1])
                invariant
                    a <= b <= end <= chars@.len(),
                    forall|k: int| b <= k < end ==> is_space(chars@[k]),
                decreases b,
            {
                b = b - 1;
            }
            let ghost x = l.skip(j - start + 1);
            proof {
                assert(x =~= chars@.subrange(j + 1, end as int));
                assert forall|m: int| 0 <= m < a - (j + 1) implies is_space(x[m]) by {
                    assert(x[m] == chars@[j + 1 + m]);
                }
                if a < end {
                    assert(x[a - (j + 1)] == chars@[a as int]);
                }
                lemma_trim_left_at(x, a - (j + 1));
                let y = x.skip(a - (j + 1));
                assert(y =~= chars@.subrange(a as int, end as int));
                assert forall|m: int| b - a <= m < y.len() implies is_space(y[m]) by {
                    assert(y[m] == chars@[a + m]);
                }
                if b > a {
                    assert(y[b - a - 1] == chars@[b - 1]);
                }
                lemma_trim_right_at(y, b - a);
                assert(trim_spec(x) =~= chars@.subrange(a as int, b as int));
            }
            if a == b {
                return None;
            }
            let text = String::from_str(content.substring_char(a, b));
            proof {
                assert(text@ == trim_spec(x));
                assert(valid_text(text@)) by {
                    assert(text@[0] == chars@[a as int]);
                    assert(text@[text@.len() - 1] == chars@[b - 1]);
                }
            }
            Some((t, text))
        },
    }
}

/// Reads a whole lyric document into `map`: each line's contribution is added
/// in document order, later lines overwriting earlier ones at the same
/// second; malformed lines are skipped and parsing never fails.
pub fn parse_lyrics(content: &str, map: &mut LyricIndex)
    requires
        old(map).wf(),
    ensures
        final(map).wf(),
        final(map)@ == doc_index(old(map)@, content@),
{
    let chars = str_chars(content);
    let ranges = split_ranges(&chars, '\n');
    let ghost lines = split_by(chars@, '\n');
    let n = ranges.len();
    let mut k: usize = 0;
    proof {
        assert(lines.skip(0) =~= lines);
    }
    while k < n
        invariant
            chars@ == content@,
            n == ranges@.len(),
            n == lines.len(),
            lines == split_by(chars@, '\n'),
            forall|m: int|
                0 <= m < n ==> (#[trigger] ranges@[m]).0 <= ranges@[m].1 <= chars@.len()
                    && chars@.subrange(ranges@[m].0 as int, ranges@[m].1 as int) == lines[m],
            k <= n,
            map.wf(),
            index_after_lines(old(map)@, lines) == index_after_lines(map@, lines.skip(k as int)),
        decreases n - k,
    {
        let (a, b) = ranges[k];
        let ghost m_pre = map@;
        let r = parse_line(content, &chars, a, b);
        proof {
            assert(chars@.subrange(a as int, b as int) == lines[k as int]);
            assert(lines.skip(k as int)[0] == lines[k as int]);
            assert(lines.skip(k as int).skip(1) =~= lines.skip(k + 1));
        }
        match r {
            Some((t, text)) => {
                let ghost gtext = text@;
                proof {
                    assert(line_entry(lines[k as int]) == Some((t as int, gtext)));
                }
                map.insert_entry(t, text);
                proof {
                    assert(map@ == m_pre.insert(t as int, gtext));
                    assert(index_after_lines(m_pre, lines.skip(k as int)) == index_after_lines(
                        map@,
                        lines.skip(k + 1),
                    ));
                }
            },
            None => {
                proof {
                    assert(index_after_lines(m_pre, lines.skip(k as int)) == index_after_lines(
                        map@,
                        lines.skip(k + 1),
                    ));
                }
            },
        }
        k = k + 1;
    }
    proof {
        assert(lines.skip(n as int) =~= Seq::<Seq<char>>::empty());
    }
}

/// Document parsing is deterministic, so parsing the same document twice
/// yields indexes with identical key/value contents.
pub proof fn lemma_parse_idempotent(doc: Seq<char>, m1: Map<int, Seq<char>>, m2: Map<
    int,
    Seq<char>,
>)
    requires
        m1 == doc_index(Map::<int, Seq<char>>::empty(), doc),
        m2 == doc_index(Map::<int, Seq<char>>::empty(), doc),
    ensures
        m1 == m2,
{
}

/// Whether second `t` is a known timestamp that does not exceed `pos`.
pub open spec fn candidate(m: Map<int, Seq<char>>, pos: int, t: int) -> bool {
    m.dom().contains(t) && t <= pos
}

/// The text of the most recently started line at `pos`: the entry with the
/// largest timestamp `<= pos`, or nothing when every timestamp is later or
/// the index is empty.
pub open spec fn resolve_spec(m: Map<int, Seq<char>>, pos: int) -> Option<Seq<char>> {
    if exists|t: int|
        #[trigger] candidate(m, pos, t) && (forall|u: int| candidate(m, pos, u) ==> u <= t) {
        let t = choose|t: int|
            #[trigger] candidate(m, pos, t) && (forall|u: int| candidate(m, pos, u) ==> u <= t);
        Some(m[t])
    } else {
        None
    }
}

/// An empty index resolves to no line, whatever the position.
pub proof fn lemma_empty_resolves_none(pos: int)
    ensures
        resolve_spec(Map::<int, Seq<char>>::empty(), pos) is None,
{
    let m = Map::<int, Seq<char>>::empty();
    if exists|t: int|
        #[trigger] candidate(m, pos, t) && (forall|u: int| candidate(m, pos, u) ==> u <= t) {
        let t = choose|t: int|
            #[trigger] candidate(m, pos, t) && (forall|u: int| candidate(m, pos, u) ==> u <= t);
        assert(m.dom().contains(t));
    }
}

/// Finds the lyric line whose timestamp is the largest value at or below
/// `position`, or nothing when no timestamp qualifies.
pub fn find_current_lyric(position: u32, lyrics: &LyricIndex) -> (r: Option<&String>)
    requires
        lyrics.wf(),
    ensures
        match r {
            Some(text) => resolve_spec(lyrics@, position as int) == Some(text@),
            None => resolve_spec(lyrics@, position as int) is None,
        },
{
    let n = lyrics.entries.len();
    let mut found = false;
    let mut bi: usize = 0;
    let mut bt: u32 = 0;
    let mut k: usize = 0;
    while k < n
        invariant
            n == lyrics.entries@.len(),
            k <= n,
            lyrics.wf(),
            !found ==> forall|m: int|
                0 <= m < k ==> (#[trigger] lyrics.entries@[m]).time > position,
            found ==> bi < n && lyrics.entries@[bi as int].time == bt && bt <= position,
            found ==> forall|m: int|
                0 <= m < k && (#[trigger] lyrics.entries@[m]).time <= position
                    ==> lyrics.entries@[m].time <= bt,
        decreases n - k,
    {
        let t = lyrics.entries[k].time;
        if t <= position && (!found || t > bt) {
            found = true;
            bi = k;
            bt = t;
        }
        k = k + 1;
    }
    let ghost m = lyrics@;
    let ghost pos = position as int;
    proof {
        lemma_entries_map_dom(lyrics.entries@);
    }
    if found {
        proof {
            lemma_entries_map_index(lyrics.entries@, bi as int);
            assert(candidate(m, pos, bt as int));
            assert forall|u: int| candidate(m, pos, u) implies u <= bt as int by {
                assert(has_time(lyrics.entries@, u));
                let idx = choose|i: int|
                    0 <= i < lyrics.entries@.len() && (#[trigger] lyrics.entries@[i]).time as int
                        == u;
                assert(lyrics.entries@[idx].time <= position);
            }
            let tm = choose|t: int|
                #[trigger] candidate(m, pos, t) && (forall|u: int|
                    candidate(m, pos, u) ==> u <= t);
            assert(candidate(m, pos, tm) && (forall|u: int| candidate(m, pos, u) ==> u <= tm));
            assert(tm == bt as int);
            assert(m[bt as int] == lyrics.entries@[bi as int].text@);
        }
        Some(&lyrics.entries[bi].text)
    } else {
        proof {
            if exists|t: int|
                #[trigger] candidate(m, pos, t) && (forall|u: int|
                    candidate(m, pos, u) ==> u <= t) {
                let tm = choose|t: int|
                    #[trigger] candidate(m, pos, t) && (forall|u: int|
                        candidate(m, pos, u) ==> u <= t);
                assert(m.dom().contains(tm));
                assert(has_time(lyrics.entries@, tm));
                let idx = choose|i: int|
                    0 <= i < lyrics.entries@.len() && (#[trigger] lyrics.entries@[i]).time as int
                        == tm;
                assert(lyrics.entries@[idx].time > position);
            }
        }
        None
    }
}

proof fn lemma_entries_map_update(s: Seq<LyricLine>, i: int, e: LyricLine)
    requires
        unique_times(s),
        0 <= i < s.len(),
        s[i].time == e.time,
    ensures
        entries_map(s.update(i, e)) == entries_map(s).insert(e.time as int, e.text@),
        unique_times(s.update(i, e)),
    decreases s.len(),
{
    assert(unique_times(s.update(i, e))) by {
        assert forall|m: int, j: int|
            0 <= m < j < s.update(i, e).len() implies (#[trigger] s.update(i, e)[m]).time != (
        #[trigger] s.update(i, e)[j]).time by {
            assert(s.update(i, e)[m].time == s[m].time);
            assert(s.update(i, e)[j].time == s[j].time);
        }
    }
    if i == s.len() - 1 {
        assert(s.update(i, e).drop_last() =~= s.drop_last());
        assert(s.update(i, e).last() == e);
        assert(entries_map(s.drop_last()).insert(s.last().time as int, s.last().text@).insert(
            e.time as int,
            e.text@,
        ) =~= entries_map(s.drop_last()).insert(e.time as int, e.text@));
    } else {
        assert(unique_times(s.drop_last())) by {
            assert(forall|m: int, j: int|
                0 <= m < j < s.drop_last().len() ==> (#[trigger] s.drop_last()[m]).time != (
                #[trigger] s.drop_last()[j]).time);
        }
        assert(s.drop_last()[i] == s[i]);
        lemma_entries_map_update(s.drop_last(), i, e);
        assert(s.update(i, e).drop_last() =~= s.drop_last().update(i, e));
        assert(s.update(i, e).last() == s.last());
        assert(s[i].time != s[s.len() - 1].time);
        assert(entries_map(s.drop_last()).insert(e.time as int, e.text@).insert(
            s.last().time as int,
            s.last().text@,
        ) =~= entries_map(s.drop_last()).insert(s.last().time as int, s.last().text@).insert(
            e.time as int,
            e.text@,
        ));
    }
}

} // verus!
