//! Verified utilities on character sequences: equality, copying, substring
//! search, whitespace trimming, and splitting on a separator character.

use vstd::prelude::*;

verus! {

/// A character removed by trimming: ASCII whitespace.
pub open spec fn is_space(c: char) -> bool {
    c == ' ' || c == '\t' || c == '\n' || c == '\r' || c == '\u{0b}' || c == '\u{0c}'
}

/// The needle occurs in the haystack starting at position `i`.
pub open spec fn matches_at(hay: Seq<char>, i: int, needle: Seq<char>) -> bool {
    0 <= i && i + needle.len() <= hay.len() && hay.subrange(i, i + needle.len()) == needle
}

/// The needle occurs somewhere in the haystack.
pub open spec fn contains_seq(hay: Seq<char>, needle: Seq<char>) -> bool {
    exists|i: int| matches_at(hay, i, needle)
}

/// `s` with leading whitespace removed.
pub open spec fn trim_front(s: Seq<char>) -> Seq<char>
    decreases s.len(),
{
    if s.len() > 0 && is_space(s[0]) {
        trim_front(s.skip(1))
    } else {
        s
    }
}

/// `s` with trailing whitespace removed.
pub open spec fn trim_back(s: Seq<char>) -> Seq<char>
    decreases s.len(),
{
    if s.len() > 0 && is_space(s.last()) {
        trim_back(s.drop_last())
    } else {
        s
    }
}

/// `s` with leading and trailing whitespace removed.
pub open spec fn trimmed(s: Seq<char>) -> Seq<char> {
    trim_back(trim_front(s))
}

/// The segments of `s` between occurrences of `sep`, in order. The empty
/// sequence has one empty segment, so the result never has fewer segments
/// than one, and a trailing separator yields a trailing empty segment.
pub open spec fn split_on(s: Seq<char>, sep: char) -> Seq<Seq<char>>
    decreases s.len(),
{
    if s.len() == 0 {
        seq![Seq::<char>::empty()]
    } else {
        let rest = split_on(s.drop_last(), sep);
        if s.last() == sep {
            rest.push(Seq::<char>::empty())
        } else {
            rest.update(rest.len() - 1, rest.last().push(s.last()))
        }
    }
}

/// Splitting never yields fewer segments than one.
pub proof fn lemma_split_on_nonempty(s: Seq<char>, sep: char)
    ensures
        split_on(s, sep).len() >= 1,
    decreases s.len(),
{
    if s.len() > 0 {
        lemma_split_on_nonempty(s.drop_last(), sep);
    }
}

/// A text without the separator is one single segment.
pub proof fn lemma_split_on_no_sep(s: Seq<char>, sep: char)
    requires
        !s.contains(sep),
    ensures
        split_on(s, sep) == seq![s],
    decreases s.len(),
{
    if s.len() == 0 {
        assert(s =~= Seq::<char>::empty());
        assert(split_on(s, sep) =~~= seq![s]);
    } else {
        assert(!s.drop_last().contains(sep)) by {
            assert(forall|i: int|
                0 <= i < s.drop_last().len() ==> s.drop_last()[i] == s[i]);
        }
        lemma_split_on_no_sep(s.drop_last(), sep);
        assert(s.last() != sep);
        assert(split_on(s, sep) =~~= seq![s]) by {
            assert(s.drop_last().push(s.last()) =~= s);
        }
    }
}

/// Appending separator-free text extends the last segment and nothing else.
pub proof fn lemma_split_on_extend(s: Seq<char>, t: Seq<char>, sep: char)
    requires
        !t.contains(sep),
    ensures
        split_on(s + t, sep) == split_on(s, sep).update(
            split_on(s, sep).len() - 1,
            split_on(s, sep).last() + t,
        ),
    decreases t.len(),
{
    lemma_split_on_nonempty(s, sep);
    if t.len() == 0 {
        assert(s + t =~= s);
        assert(split_on(s, sep).last() + t =~= split_on(s, sep).last());
        assert(split_on(s, sep).update(
            split_on(s, sep).len() - 1,
            split_on(s, sep).last() + t,
        ) =~~= split_on(s, sep));
    } else {
        assert(!t.drop_last().contains(sep)) by {
            assert(forall|i: int|
                0 <= i < t.drop_last().len() ==> t.drop_last()[i] == t[i]);
        }
        lemma_split_on_extend(s, t.drop_last(), sep);
        assert(t.last() != sep);
        assert((s + t).drop_last() =~= s + t.drop_last());
        assert((s + t).last() == t.last());
        let prev = split_on(s + t.drop_last(), sep);
        lemma_split_on_nonempty(s + t.drop_last(), sep);
        assert(split_on(s + t, sep) == prev.update(prev.len() - 1, prev.last().push(t.last())));
        assert(split_on(s + t, sep) =~~= split_on(s, sep).update(
            split_on(s, sep).len() - 1,
            split_on(s, sep).last() + t,
        )) by {
            assert(prev.last() == split_on(s, sep).last() + t.drop_last());
            assert((split_on(s, sep).last() + t.drop_last()).push(t.last()) =~= split_on(
                s,
                sep,
            ).last() + t);
        }
    }
}

/// Decides whether a character counts as whitespace for trimming.
pub fn is_space_char(c: char) -> (r: bool)
    ensures
        r == is_space(c),
{
    c == ' ' || c == '\t' || c == '\n' || c == '\r' || c == '\u{0b}' || c == '\u{0c}'
}

/// Compares two character vectors element by element.
pub fn chars_eq(a: &Vec<char>, b: &Vec<char>) -> (r: bool)
    ensures
        r == (a@ == b@),
{
    if a.len() != b.len() {
        assert(a@ != b@) by {
            assert(a@.len() != b@.len());
        }
        return false;
    }
    let mut i: usize = 0;
    while i < a.len()
        invariant
            i <= a.len(),
            a@.len() == b@.len(),
            forall|j: int| 0 <= j < i ==> a@[j] == b@[j],
        decreases a.len() - i,
    {
        if a[i] != b[i] {
            return false;
        }
        i += 1;
    }
    assert(a@ =~= b@);
    true
}

/// Copies the characters of `s` in the range `lo..hi` into a new vector.
pub fn copy_range(s: &Vec<char>, lo: usize, hi: usize) -> (r: Vec<char>)
    requires
        lo <= hi <= s@.len(),
    ensures
        r@ == s@.subrange(lo as int, hi as int),
{
    let mut r: Vec<char> = Vec::new();
    let mut i: usize = lo;
    while i < hi
        invariant
            lo <= i <= hi <= s@.len(),
            r@ == s@.subrange(lo as int, i as int),
        decreases hi - i,
    {
        r.push(s[i]);
        assert(r@ =~= s@.subrange(lo as int, i + 1 as int));
        i += 1;
    }
    r
}

/// Copies a whole character vector.
pub fn copy_chars(s: &Vec<char>) -> (r: Vec<char>)
    ensures
        r@ == s@,
{
    let r = copy_range(s, 0, s.len());
    assert(s@.subrange(0, s@.len() as int) =~= s@);
    r
}

fn matches_at_exec(hay: &Vec<char>, i: usize, needle: &Vec<char>) -> (r: bool)
    requires
        i + needle@.len() <= hay@.len(),
    ensures
        r == matches_at(hay@, i as int, needle@),
{
    let hay_len = hay.len();
    let needle_len = needle.len();
    let mut j: usize = 0;
    while j < needle_len
        invariant
            hay_len == hay@.len(),
            needle_len == needle@.len(),
            j <= needle_len,
            i + needle_len <= hay_len,
            forall|k: int| 0 <= k < j ==> hay@[i + k] == needle@[k],
        decreases needle_len - j,
    {
        if hay[i + j] != needle[j] {
            assert(!matches_at(hay@, i as int, needle@)) by {
                assert(hay@.subrange(i as int, i + needle@.len())[j as int] == hay@[i + j]);
            }
            return false;
        }
        j += 1;
    }
    assert(hay@.subrange(i as int, i + needle@.len()) =~= needle@);
    true
}

/// Whether `needle` occurs as a contiguous run of characters in `hay`.
pub fn contains_chars(hay: &Vec<char>, needle: &Vec<char>) -> (r: bool)
    ensures
        r == contains_seq(hay@, needle@),
{
    if needle.len() > hay.len() {
        assert(!contains_seq(hay@, needle@));
        return false;
    }
    let last_start = hay.len() - needle.len();
    let mut i: usize = 0;
    loop
        invariant
            needle@.len() <= hay@.len(),
            last_start == hay@.len() - needle@.len(),
            i <= last_start,
            forall|k: int| 0 <= k < i ==> !matches_at(hay@, k, needle@),
        decreases last_start - i,
    {
        if matches_at_exec(hay, i, needle) {
            return true;
        }
        if i == last_start {
            assert(!contains_seq(hay@, needle@)) by {
                assert(forall|k: int| matches_at(hay@, k, needle@) ==> 0 <= k <= last_start);
            }
            return false;
        }
        i += 1;
    }
}

/// Removes leading and trailing whitespace.
pub fn trim_chars(s: &Vec<char>) -> (r: Vec<char>)
    ensures
        r@ == trimmed(s@),
{
    let mut lo: usize = 0;
    assert(s@.skip(0) =~= s@);
    loop
        invariant
            lo <= s@.len(),
            trim_front(s@) == trim_front(s@.skip(lo as int)),
        ensures
            lo <= s@.len(),
            trim_front(s@) == s@.subrange(lo as int, s@.len() as int),
        decreases s@.len() - lo,
    {
        if lo == s.len() {
            assert(s@.skip(lo as int) =~= s@.subrange(lo as int, s@.len() as int));
            break;
        }
        if !is_space_char(s[lo]) {
            assert(s@.skip(lo as int) =~= s@.subrange(lo as int, s@.len() as int));
            assert(trim_front(s@.skip(lo as int)) == s@.skip(lo as int)) by {
                assert(s@.skip(lo as int)[0] == s@[lo as int]);
            }
            break;
        }
        proof {
            assert(s@.skip(lo as int)[0] == s@[lo as int]);
            assert(s@.skip(lo as int).skip(1) =~= s@.skip(lo + 1));
        }
        lo += 1;
    }
    let mut hi: usize = s.len();
    loop
        invariant
            lo <= hi <= s@.len(),
            trim_front(s@) == s@.subrange(lo as int, s@.len() as int),
            trim_back(s@.subrange(lo as int, s@.len() as int)) == trim_back(
                s@.subrange(lo as int, hi as int),
            ),
        ensures
            lo <= hi <= s@.len(),
            trimmed(s@) == s@.subrange(lo as int, hi as int),
        decreases hi - lo,
    {
        if hi == lo {
            assert(trim_back(s@.subrange(lo as int, hi as int)) == s@.subrange(
                lo as int,
                hi as int,
            ));
            break;
        }
        if !is_space_char(s[hi - 1]) {
            assert(trim_back(s@.subrange(lo as int, hi as int)) == s@.subrange(
                lo as int,
                hi as int,
            )) by {
                assert(s@.subrange(lo as int, hi as int).last() == s@[hi - 1]);
            }
            break;
        }
        proof {
            assert(s@.subrange(lo as int, hi as int).last() == s@[hi - 1]);
            assert(s@.subrange(lo as int, hi as int).drop_last() =~= s@.subrange(
                lo as int,
                hi - 1,
            ));
        }
        hi -= 1;
    }
    copy_range(s, lo, hi)
}

/// A line terminator's carriage return removed: one trailing '\r' is dropped.
pub open spec fn strip_cr(line: Seq<char>) -> Seq<char> {
    if line.len() > 0 && line.last() == '\r' {
        line.drop_last()
    } else {
        line
    }
}

/// The lines of `s`: the segments between '\n' characters. Every segment but
/// the last was followed by a terminator, so it loses one trailing '\r'
/// (a "\r\n" ending); a final empty segment is no line, so text ending in
/// '\n' yields no extra empty line.
pub open spec fn spec_lines(s: Seq<char>) -> Seq<Seq<char>> {
    let segs = split_on(s, '\n');
    let n = segs.len() as int;
    let stripped = Seq::new(n as nat, |i: int| if i < n - 1 { strip_cr(segs[i]) } else { segs[i] });
    if stripped.last().len() == 0 {
        stripped.drop_last()
    } else {
        stripped
    }
}

/// The first line, in order, in which the needle occurs.
pub open spec fn first_line_with(lines: Seq<Seq<char>>, needle: Seq<char>) -> Option<Seq<char>>
    decreases lines.len(),
{
    if lines.len() == 0 {
        None
    } else if contains_seq(lines[0], needle) {
        Some(lines[0])
    } else {
        first_line_with(lines.skip(1), needle)
    }
}

proof fn lemma_first_line_with_skip(lines: Seq<Seq<char>>, needle: Seq<char>, i: int)
    requires
        0 <= i <= lines.len(),
        forall|k: int| 0 <= k < i ==> !contains_seq(#[trigger] lines[k], needle),
    ensures
        first_line_with(lines, needle) == first_line_with(lines.skip(i), needle),
    decreases i,
{
    if i == 0 {
        assert(lines.skip(0) =~= lines);
    } else {
        assert(!contains_seq(lines[0], needle));
        assert(forall|k: int|
            0 <= k < i - 1 ==> !contains_seq(#[trigger] lines.skip(1)[k], needle)) by {
            assert(forall|k: int| 0 <= k < i - 1 ==> lines.skip(1)[k] == lines[k + 1]);
        }
        lemma_first_line_with_skip(lines.skip(1), needle, i - 1);
        assert(lines.skip(1).skip(i - 1) =~= lines.skip(i));
    }
}

/// Splits a character vector on a separator character. The result always has
/// at least one segment.
pub fn split_chars(s: &Vec<char>, sep: char) -> (r: Vec<Vec<char>>)
    ensures
        r.deep_view() == split_on(s@, sep),
        r@.len() >= 1,
{
    let mut r: Vec<Vec<char>> = Vec::new();
    r.push(Vec::new());
    assert(r.deep_view() =~~= split_on(s@.take(0), sep)) by {
        assert(s@.take(0) =~= Seq::<char>::empty());
    }
    let mut i: usize = 0;
    while i < s.len()
        invariant
            i <= s@.len(),
            r@.len() >= 1,
            r.deep_view() == split_on(s@.take(i as int), sep),
        decreases s@.len() - i,
    {
        proof {
            assert(s@.take(i + 1).drop_last() =~= s@.take(i as int));
            assert(s@.take(i + 1).last() == s@[i as int]);
        }
        let ghost prev = r.deep_view();
        if s[i] == sep {
            r.push(Vec::new());
            assert(r.deep_view() =~~= prev.push(Seq::<char>::empty()));
        } else {
            let c = s[i];
            let mut seg = r.pop().unwrap();
            seg.push(c);
            r.push(seg);
            assert(r.deep_view() =~~= prev.update(prev.len() - 1, prev.last().push(c)));
        }
        i += 1;
    }
    assert(s@.take(s@.len() as int) =~= s@);
    r
}

/// Splits a character vector into its lines, as `spec_lines` describes.
pub fn lines_of(s: &Vec<char>) -> (r: Vec<Vec<char>>)
    ensures
        r.deep_view() == spec_lines(s@),
{
    let segs = split_chars(s, '\n');
    let n = segs.len();
    let ghost segs_v = segs.deep_view();
    let ghost stripped = Seq::new(segs_v.len(), |i: int|
        if i < segs_v.len() - 1 { strip_cr(segs_v[i]) } else { segs_v[i] });
    let mut r: Vec<Vec<char>> = Vec::new();
    assert(r.deep_view() =~~= stripped.take(0));
    let mut i: usize = 0;
    while i < n - 1
        invariant
            n == segs_v.len(),
            n >= 1,
            segs.deep_view() == segs_v,
            segs@.len() == n,
            stripped == Seq::new(segs_v.len(), |k: int|
                if k < segs_v.len() - 1 { strip_cr(segs_v[k]) } else { segs_v[k] }),
            i <= n - 1,
            r.deep_view() == stripped.take(i as int),
        decreases n - 1 - i,
    {
        let seg = &segs[i];
        assert(seg@ =~= segs_v[i as int]);
        let seg_len = seg.len();
        let ghost prev = r.deep_view();
        if seg_len > 0 && seg[seg_len - 1] == '\r' {
            let head = copy_range(seg, 0, seg_len - 1);
            assert(head@ =~= strip_cr(seg@)) by {
                assert(seg@.drop_last() =~= seg@.subrange(0, seg@.len() - 1));
            }
            r.push(head);
        } else {
            let whole = copy_chars(seg);
            r.push(whole);
        }
        assert(r.deep_view() =~~= stripped.take(i + 1)) by {
            assert(r.deep_view() =~~= prev.push(strip_cr(segs_v[i as int])));
            assert(stripped.take(i + 1) =~= stripped.take(i as int).push(stripped[i as int]));
        }
        i += 1;
    }
    let last = &segs[n - 1];
    assert(last@ =~= segs_v[n - 1]);
    assert(stripped[n - 1] == segs_v[n - 1]);
    proof {
        assert(split_on(s@, '\n') == segs_v);
    }
    if last.len() > 0 {
        let whole = copy_chars(last);
        r.push(whole);
        assert(r.deep_view() =~~= stripped) by {
            assert(stripped.take(n - 1).push(stripped[n - 1]) =~= stripped);
        }
        assert(stripped.last().len() != 0);
        assert(spec_lines(s@) =~~= stripped);
    } else {
        assert(r.deep_view() =~~= stripped.drop_last()) by {
            assert(stripped.take(n - 1) =~= stripped.drop_last());
        }
        assert(stripped.last().len() == 0);
        assert(spec_lines(s@) =~~= stripped.drop_last());
    }
    r
}

/// The first line of `lines` in which the needle occurs, copied out.
pub fn find_line_with(lines: &Vec<Vec<char>>, needle: &Vec<char>) -> (r: Option<Vec<char>>)
    ensures
        r.deep_view() == first_line_with(lines.deep_view(), needle@),
{
    let n = lines.len();
    let ghost lines_v = lines.deep_view();
    let mut i: usize = 0;
    while i < n
        invariant
            n == lines_v.len(),
            lines.deep_view() == lines_v,
            lines@.len() == n,
            i <= n,
            forall|k: int| 0 <= k < i ==> !contains_seq(#[trigger] lines_v[k], needle@),
        decreases n - i,
    {
        let line = &lines[i];
        assert(line@ =~= lines_v[i as int]);
        if contains_chars(line, needle) {
            let found = copy_chars(line);
            proof {
                lemma_first_line_with_skip(lines_v, needle@, i as int);
                assert(lines_v.skip(i as int)[0] == lines_v[i as int]);
            }
            return Some(found);
        }
        i += 1;
    }
    proof {
        lemma_first_line_with_skip(lines_v, needle@, n as int);
        assert(lines_v.skip(n as int) =~= Seq::<Seq<char>>::empty());
    }
    None
}

} // verus!
