//! Verified path text handling: the final component and file stem of a
//! slash-separated path, joining a directory with a file name, and
//! abbreviating the home directory prefix for display.

use vstd::prelude::*;

verus! {

/// `s` with trailing '/' separators removed.
pub open spec fn strip_trailing_slashes(s: Seq<char>) -> Seq<char>
    decreases s.len(),
{
    if s.len() > 0 && s.last() == '/' {
        strip_trailing_slashes(s.drop_last())
    } else {
        s
    }
}

/// The position of the last occurrence of `c` in `s`, if any.
pub open spec fn rfind(s: Seq<char>, c: char) -> Option<int>
    decreases s.len(),
{
    if s.len() == 0 {
        None
    } else if s.last() == c {
        Some(s.len() - 1)
    } else {
        rfind(s.drop_last(), c)
    }
}

/// A text without `c` has no last occurrence of it.
pub proof fn lemma_rfind_none(s: Seq<char>, c: char)
    requires
        !s.contains(c),
    ensures
        rfind(s, c) == None::<int>,
    decreases s.len(),
{
    if s.len() > 0 {
        assert(s.last() != c);
        assert(!s.drop_last().contains(c)) by {
            assert(forall|i: int| 0 <= i < s.drop_last().len() ==> s.drop_last()[i] == s[i]);
        }
        lemma_rfind_none(s.drop_last(), c);
    }
}

/// Appending text free of `c` does not move the last occurrence of `c`.
pub proof fn lemma_rfind_concat(s: Seq<char>, t: Seq<char>, c: char)
    requires
        !t.contains(c),
    ensures
        rfind(s + t, c) == rfind(s, c),
    decreases t.len(),
{
    if t.len() == 0 {
        assert(s + t =~= s);
    } else {
        assert(t.last() != c);
        assert(!t.drop_last().contains(c)) by {
            assert(forall|i: int| 0 <= i < t.drop_last().len() ==> t.drop_last()[i] == t[i]);
        }
        lemma_rfind_concat(s, t.drop_last(), c);
        assert((s + t).last() == t.last());
        assert((s + t).drop_last() =~= s + t.drop_last());
    }
}

/// The final component of a path: what follows the last '/' once trailing
/// separators are dropped.
pub open spec fn final_component(path: Seq<char>) -> Seq<char> {
    let s = strip_trailing_slashes(path);
    match rfind(s, '/') {
        Some(i) => s.skip(i + 1),
        None => s,
    }
}

/// The file stem of a path: its final component without the extension. The
/// component loses what follows its last '.', unless that dot is its first
/// character (a hidden file's name is all stem). A path with an empty final
/// component, or one naming the current or parent directory, has no stem.
pub open spec fn spec_file_stem(path: Seq<char>) -> Option<Seq<char>> {
    let name = final_component(path);
    if name.len() == 0 || name == seq!['.'] || name == seq!['.', '.'] {
        None
    } else {
        match rfind(name, '.') {
            Some(i) => if i > 0 {
                Some(name.take(i))
            } else {
                Some(name)
            },
            None => Some(name),
        }
    }
}

/// A directory path joined with a file name, as the platform joins them:
/// a '/' is inserted unless the directory is empty or already ends in one.
pub open spec fn spec_join(dir: Seq<char>, file: Seq<char>) -> Seq<char> {
    if dir.len() == 0 {
        file
    } else if dir.last() == '/' {
        dir + file
    } else {
        dir + seq!['/'] + file
    }
}

/// A path shown to the user: the home directory prefix becomes '~'.
pub open spec fn spec_display_path(path: Seq<char>, home: Seq<char>) -> Seq<char> {
    if path.len() >= home.len() && path.take(home.len() as int) == home {
        seq!['~'] + path.skip(home.len() as int)
    } else {
        path
    }
}

/// Concatenates two character vectors.
pub fn concat_chars(a: &Vec<char>, b: &Vec<char>) -> (r: Vec<char>)
    ensures
        r@ == a@ + b@,
{
    let mut r = crate::text::copy_chars(a);
    let mut i: usize = 0;
    while i < b.len()
        invariant
            i <= b@.len(),
            r@ == a@ + b@.take(i as int),
        decreases b@.len() - i,
    {
        r.push(b[i]);
        assert(r@ =~= a@ + b@.take(i + 1));
        i += 1;
    }
    assert(b@.take(b@.len() as int) =~= b@);
    r
}

/// Joins a directory path and a file name.
pub fn join_path(dir: &Vec<char>, file: &Vec<char>) -> (r: Vec<char>)
    ensures
        r@ == spec_join(dir@, file@),
{
    if dir.len() == 0 {
        crate::text::copy_chars(file)
    } else if dir[dir.len() - 1] == '/' {
        concat_chars(dir, file)
    } else {
        let mut r = crate::text::copy_chars(dir);
        r.push('/');
        assert(r@ =~= dir@ + seq!['/']);
        let r = concat_chars(&r, file);
        assert(r@ =~= dir@ + seq!['/'] + file@);
        r
    }
}

/// Abbreviates the home directory prefix of a path to '~'.
pub fn display_path(path: &Vec<char>, home: &Vec<char>) -> (r: Vec<char>)
    ensures
        r@ == spec_display_path(path@, home@),
{
    let hlen = home.len();
    if path.len() < hlen {
        assert(!(path@.len() >= home@.len() && path@.take(home@.len() as int) == home@));
        return crate::text::copy_chars(path);
    }
    let prefix = crate::text::copy_range(path, 0, hlen);
    if crate::text::chars_eq(&prefix, home) {
        let mut r: Vec<char> = Vec::new();
        r.push('~');
        let tail = crate::text::copy_range(path, hlen, path.len());
        let r = concat_chars(&r, &tail);
        assert(r@ =~= seq!['~'] + path@.skip(hlen as int)) by {
            assert(path@.subrange(hlen as int, path@.len() as int) =~= path@.skip(hlen as int));
        }
        r
    } else {
        assert(path@.take(hlen as int) != home@);
        crate::text::copy_chars(path)
    }
}

/// Extracts the file stem of a path, as `spec_file_stem` describes.
pub fn file_stem(path: &Vec<char>) -> (r: Option<Vec<char>>)
    ensures
        r.deep_view() == spec_file_stem(path@),
{
    let n = path.len();
    let mut hi: usize = n;
    assert(path@.take(n as int) =~= path@);
    loop
        invariant
            hi <= n,
            n == path@.len(),
            strip_trailing_slashes(path@) == strip_trailing_slashes(path@.take(hi as int)),
        ensures
            hi <= n,
            n == path@.len(),
            strip_trailing_slashes(path@) == path@.take(hi as int),
        decreases hi,
    {
        if hi == 0 {
            assert(path@.take(0) =~= Seq::<char>::empty());
            break;
        }
        if path[hi - 1] != '/' {
            assert(strip_trailing_slashes(path@.take(hi as int)) == path@.take(hi as int)) by {
                assert(path@.take(hi as int).last() == path@[hi - 1]);
            }
            break;
        }
        proof {
            assert(path@.take(hi as int).last() == path@[hi - 1]);
            assert(path@.take(hi as int).drop_last() =~= path@.take(hi - 1));
        }
        hi -= 1;
    }
    let ghost s0 = path@.take(hi as int);
    let mut j: usize = hi;
    loop
        invariant
            j <= hi <= n,
            n == path@.len(),
            rfind(s0, '/') == rfind(path@.take(j as int), '/'),
        ensures
            j <= hi <= n,
            n == path@.len(),
            (j == 0 && rfind(s0, '/') == None::<int>) || (j > 0 && rfind(s0, '/') == Some(
                (j - 1) as int,
            )),
        decreases j,
    {
        if j == 0 {
            assert(path@.take(0) =~= Seq::<char>::empty());
            break;
        }
        if path[j - 1] == '/' {
            assert(rfind(path@.take(j as int), '/') == Some((j - 1) as int)) by {
                assert(path@.take(j as int).last() == path@[j - 1]);
            }
            break;
        }
        proof {
            assert(path@.take(j as int).last() == path@[j - 1]);
            assert(path@.take(j as int).drop_last() =~= path@.take(j - 1));
        }
        j -= 1;
    }
    let ghost name = final_component(path@);
    proof {
        if j == 0 {
            assert(name == s0);
        } else {
            assert(name == s0.skip(j as int));
        }
        assert(name =~= path@.subrange(j as int, hi as int));
    }
    let name_len = hi - j;
    proof {
        assert(name.len() == name_len);
        if name_len >= 1 {
            assert(name[0] == path@[j as int]);
        }
        if name_len >= 2 {
            assert(name[1] == path@[j + 1]);
        }
    }
    if name_len == 0 {
        return None;
    }
    if name_len == 1 && path[j] == '.' {
        assert(name =~= seq!['.']);
        return None;
    }
    if name_len == 2 && path[j] == '.' && path[j + 1] == '.' {
        assert(name =~= seq!['.', '.']);
        return None;
    }
    proof {
        assert(name != seq!['.']);
        assert(name != seq!['.', '.']);
    }
    let mut k: usize = hi;
    assert(path@.subrange(j as int, hi as int) == name);
    loop
        invariant
            j <= k <= hi <= n,
            n == path@.len(),
            rfind(name, '.') == rfind(path@.subrange(j as int, k as int), '.'),
        ensures
            j <= k <= hi,
            n == path@.len(),
            (k == j && rfind(name, '.') == None::<int>) || (k > j && rfind(name, '.') == Some(
                k - 1 - j,
            )),
        decreases k,
    {
        if k == j {
            assert(path@.subrange(j as int, j as int) =~= Seq::<char>::empty());
            break;
        }
        if path[k - 1] == '.' {
            assert(rfind(path@.subrange(j as int, k as int), '.') == Some(k - 1 - j)) by {
                assert(path@.subrange(j as int, k as int).last() == path@[k - 1]);
            }
            break;
        }
        proof {
            assert(path@.subrange(j as int, k as int).last() == path@[k - 1]);
            assert(path@.subrange(j as int, k as int).drop_last() =~= path@.subrange(
                j as int,
                k - 1,
            ));
        }
        k -= 1;
    }
    if k > j && k - 1 > j {
        let stem = crate::text::copy_range(path, j, k - 1);
        assert(name.take(k - 1 - j) =~= path@.subrange(j as int, (k - 1) as int));
        Some(stem)
    } else {
        let stem = crate::text::copy_range(path, j, hi);
        Some(stem)
    }
}

} // verus!
