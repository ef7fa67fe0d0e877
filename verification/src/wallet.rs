//! The wallet rules: which directory entries are wallet keypair files, how
//! the active wallet is read out of the external tool's configuration
//! output, and the decisions taken when a wallet is removed.

use crate::paths::{file_stem, join_path, spec_file_stem, spec_join};
use crate::text::{
    chars_eq, contains_seq, copy_chars, copy_range, find_line_with, first_line_with, lines_of,
    spec_lines, split_chars, split_on, trim_chars, trimmed,
};
use vstd::prelude::*;

verus! {

/// The extension that marks a wallet keypair file.
pub open spec fn json_suffix() -> Seq<char> {
    seq!['.', 'j', 's', 'o', 'n']
}

/// The label on the configuration line that records the keypair path.
pub open spec fn keypair_label() -> Seq<char> {
    seq!['K', 'e', 'y', 'p', 'a', 'i', 'r', ' ', 'P', 'a', 't', 'h']
}

/// The word a user must type to confirm a removal.
pub open spec fn remove_word() -> Seq<char> {
    seq!['r', 'e', 'm', 'o', 'v', 'e']
}

/// The wallet name removal falls back to when its keypair file exists.
pub open spec fn id_name() -> Seq<char> {
    seq!['i', 'd']
}

/// The wallet directory's place below the home directory.
pub open spec fn config_subdir() -> Seq<char> {
    seq!['.', 'c', 'o', 'n', 'f', 'i', 'g', '/', 's', 'o', 'l', 'a', 'n', 'a']
}

/// A directory entry that is a wallet keypair file: `<stem>.json` with a
/// non-empty stem. A name that is nothing but the extension has no stem and
/// is no wallet file.
pub open spec fn is_wallet_file(name: Seq<char>) -> bool {
    name.len() > json_suffix().len() && name.skip(name.len() - json_suffix().len())
        == json_suffix()
}

/// The wallet name of a keypair file name: the part before `.json`.
pub open spec fn wallet_stem(name: Seq<char>) -> Seq<char> {
    name.take(name.len() - json_suffix().len())
}

/// The wallet names among a directory's entries: every wallet keypair file,
/// in order, reduced to its stem.
pub open spec fn spec_wallet_names(entries: Seq<Seq<char>>) -> Seq<Seq<char>>
    decreases entries.len(),
{
    if entries.len() == 0 {
        Seq::empty()
    } else {
        let rest = spec_wallet_names(entries.drop_last());
        if is_wallet_file(entries.last()) {
            rest.push(wallet_stem(entries.last()))
        } else {
            rest
        }
    }
}

/// The keypair path recorded in the configuration output: on the first line
/// in which the label occurs, the text between the first ':' and the second
/// (or the end), trimmed of whitespace. There is none when no line holds the
/// label, or the line has no ':' at all.
pub open spec fn spec_active_keypair_path(cfg: Seq<char>) -> Option<Seq<char>> {
    match first_line_with(spec_lines(cfg), keypair_label()) {
        None => None,
        Some(line) => {
            let segs = split_on(line, ':');
            if segs.len() >= 2 {
                Some(trimmed(segs[1]))
            } else {
                None
            }
        },
    }
}

/// The active wallet named by the configuration output: the file stem of
/// the configured keypair path.
pub open spec fn spec_active_wallet(cfg: Seq<char>) -> Option<Seq<char>> {
    match spec_active_keypair_path(cfg) {
        None => None,
        Some(p) => spec_file_stem(p),
    }
}

/// The wallet name shown for a keypair path: its file stem, or the whole
/// path where it has none.
pub open spec fn spec_wallet_label_for_path(p: Seq<char>) -> Seq<char> {
    match spec_file_stem(p) {
        Some(s) => s,
        None => p,
    }
}

/// `names` with every occurrence of `removed` dropped, in order.
pub open spec fn names_without(names: Seq<Seq<char>>, removed: Seq<char>) -> Seq<Seq<char>>
    decreases names.len(),
{
    if names.len() == 0 {
        Seq::empty()
    } else {
        let rest = names_without(names.skip(1), removed);
        if names[0] == removed {
            rest
        } else {
            seq![names[0]] + rest
        }
    }
}

/// The wallet made active after the active one is removed: `id` when its
/// keypair file still exists, otherwise the first remaining wallet name,
/// otherwise the empty name.
pub open spec fn spec_next_active(names: Seq<Seq<char>>, removed: Seq<char>, id_present: bool)
    -> Seq<char> {
    if id_present {
        id_name()
    } else {
        let keep = names_without(names, removed);
        if keep.len() > 0 {
            keep[0]
        } else {
            Seq::empty()
        }
    }
}

/// Decides whether a directory entry is a wallet keypair file.
pub fn is_wallet_file_name(name: &Vec<char>) -> (r: bool)
    ensures
        r == is_wallet_file(name@),
{
    let n = name.len();
    if n <= 5 {
        return false;
    }
    let r = name[n - 5] == '.' && name[n - 4] == 'j' && name[n - 3] == 's' && name[n - 2] == 'o'
        && name[n - 1] == 'n';
    proof {
        let tail = name@.skip(n - 5);
        assert(tail.len() == 5);
        assert(tail[0] == name@[n - 5]);
        assert(tail[1] == name@[n - 4]);
        assert(tail[2] == name@[n - 3]);
        assert(tail[3] == name@[n - 2]);
        assert(tail[4] == name@[n - 1]);
        if r {
            assert(tail =~= json_suffix());
        }
    }
    r
}

/// The name of a wallet keypair file: the entry without its extension.
pub fn wallet_stem_of(name: &Vec<char>) -> (r: Vec<char>)
    requires
        is_wallet_file(name@),
    ensures
        r@ == wallet_stem(name@),
{
    copy_range(name, 0, name.len() - 5)
}

/// Reduces a directory's entries to the wallet names among them.
pub fn wallet_names(entries: &Vec<Vec<char>>) -> (r: Vec<Vec<char>>)
    ensures
        r.deep_view() == spec_wallet_names(entries.deep_view()),
{
    let ghost ev = entries.deep_view();
    let mut r: Vec<Vec<char>> = Vec::new();
    assert(r.deep_view() =~~= spec_wallet_names(ev.take(0))) by {
        assert(ev.take(0) =~= Seq::<Seq<char>>::empty());
    }
    let n = entries.len();
    let mut i: usize = 0;
    while i < n
        invariant
            n == ev.len(),
            entries.deep_view() == ev,
            entries@.len() == n,
            i <= n,
            r.deep_view() == spec_wallet_names(ev.take(i as int)),
        decreases n - i,
    {
        let e = &entries[i];
        assert(e@ =~= ev[i as int]);
        proof {
            assert(ev.take(i + 1).drop_last() =~= ev.take(i as int));
            assert(ev.take(i + 1).last() == ev[i as int]);
        }
        let ghost prev = r.deep_view();
        if is_wallet_file_name(e) {
            let stem = wallet_stem_of(e);
            r.push(stem);
            assert(r.deep_view() =~~= prev.push(wallet_stem(ev[i as int])));
        }
        i += 1;
    }
    assert(ev.take(n as int) =~= ev);
    r
}

fn keypair_label_chars() -> (r: Vec<char>)
    ensures
        r@ == keypair_label(),
{
    let r: Vec<char> = vec!['K', 'e', 'y', 'p', 'a', 'i', 'r', ' ', 'P', 'a', 't', 'h'];
    assert(r@ =~= keypair_label());
    r
}

fn remove_word_chars() -> (r: Vec<char>)
    ensures
        r@ == remove_word(),
{
    let r: Vec<char> = vec!['r', 'e', 'm', 'o', 'v', 'e'];
    assert(r@ =~= remove_word());
    r
}

fn id_name_chars() -> (r: Vec<char>)
    ensures
        r@ == id_name(),
{
    let r: Vec<char> = vec!['i', 'd'];
    assert(r@ =~= id_name());
    r
}

fn config_subdir_chars() -> (r: Vec<char>)
    ensures
        r@ == config_subdir(),
{
    let r: Vec<char> = vec!['.', 'c', 'o', 'n', 'f', 'i', 'g', '/', 's', 'o', 'l', 'a', 'n', 'a'];
    assert(r@ =~= config_subdir());
    r
}

/// How the configuration output reads for a keypair path.
#[derive(PartialEq, Eq, Clone, Debug)]
pub enum ConfigKeypair {
    /// No line of the output carries the label.
    NoLabelLine,
    /// The labelled line has no ':' at all, so no path follows.
    NoPathSegment,
    /// The configured keypair path.
    Path(Vec<char>),
}

/// Reads the keypair path out of the configuration output, telling the two
/// ways it can be absent apart.
pub fn read_config_keypair(cfg: &Vec<char>) -> (r: ConfigKeypair)
    ensures
        match r {
            ConfigKeypair::NoLabelLine => first_line_with(spec_lines(cfg@), keypair_label())
                is None,
            ConfigKeypair::NoPathSegment => first_line_with(spec_lines(cfg@), keypair_label())
                matches Some(line) && split_on(line, ':').len() < 2,
            ConfigKeypair::Path(p) => spec_active_keypair_path(cfg@) == Some(p@),
        },
{
    let lines = lines_of(cfg);
    let label = keypair_label_chars();
    let line = match find_line_with(&lines, &label) {
        None => {
            return ConfigKeypair::NoLabelLine;
        },
        Some(l) => l,
    };
    assert(line.deep_view() =~= line@);
    let segs = split_chars(&line, ':');
    if segs.len() >= 2 {
        let seg = &segs[1];
        assert(seg@ =~= segs.deep_view()[1]);
        let t = trim_chars(seg);
        ConfigKeypair::Path(t)
    } else {
        ConfigKeypair::NoPathSegment
    }
}

/// Reads the configured keypair path out of the configuration output.
pub fn active_keypair_path(cfg: &Vec<char>) -> (r: Option<Vec<char>>)
    ensures
        r.deep_view() == spec_active_keypair_path(cfg@),
{
    match read_config_keypair(cfg) {
        ConfigKeypair::NoLabelLine => None,
        ConfigKeypair::NoPathSegment => None,
        ConfigKeypair::Path(p) => {
            assert(p.deep_view() =~= p@);
            Some(p)
        },
    }
}

/// Reads the active wallet name out of the configuration output.
pub fn active_wallet(cfg: &Vec<char>) -> (r: Option<Vec<char>>)
    ensures
        r.deep_view() == spec_active_wallet(cfg@),
{
    match active_keypair_path(cfg) {
        None => None,
        Some(p) => {
            assert(p.deep_view() =~= p@);
            file_stem(&p)
        },
    }
}

/// The wallet name shown for a keypair path.
pub fn wallet_label_for_path(p: &Vec<char>) -> (r: Vec<char>)
    ensures
        r@ == spec_wallet_label_for_path(p@),
{
    match file_stem(p) {
        Some(s) => {
            assert(s.deep_view() =~= s@);
            s
        },
        None => copy_chars(p),
    }
}

/// Whether `name` is the active wallet.
pub fn is_active_name(name: &Vec<char>, active: &Option<Vec<char>>) -> (r: bool)
    ensures
        r == (active.deep_view() == Some(name@)),
{
    match active {
        None => false,
        Some(a) => {
            assert(a.deep_view() =~= a@);
            chars_eq(a, name)
        },
    }
}

/// Whether the typed confirmation is accepted: it reads `remove` once
/// trimmed of whitespace.
pub fn confirmation_accepted(input: &Vec<char>) -> (r: bool)
    ensures
        r == (trimmed(input@) == remove_word()),
{
    let t = trim_chars(input);
    let w = remove_word_chars();
    chars_eq(&t, &w)
}

/// Picks the wallet made active after the active one is removed.
pub fn next_active_after_removal(
    names: &Vec<Vec<char>>,
    removed: &Vec<char>,
    id_present: bool,
) -> (r: Vec<char>)
    ensures
        r@ == spec_next_active(names.deep_view(), removed@, id_present),
{
    if id_present {
        return id_name_chars();
    }
    let ghost ev = names.deep_view();
    let n = names.len();
    let mut i: usize = 0;
    assert(ev.skip(0) =~= ev);
    while i < n
        invariant
            !id_present,
            n == ev.len(),
            names.deep_view() == ev,
            names@.len() == n,
            i <= n,
            names_without(ev, removed@) == names_without(ev.skip(i as int), removed@),
        decreases n - i,
    {
        let name = &names[i];
        assert(name@ =~= ev[i as int]);
        proof {
            assert(ev.skip(i as int)[0] == ev[i as int]);
            assert(ev.skip(i as int).skip(1) =~= ev.skip(i + 1));
        }
        if !chars_eq(name, removed) {
            let keep = copy_chars(name);
            assert(names_without(ev.skip(i as int), removed@)[0] == ev[i as int]);
            return keep;
        }
        i += 1;
    }
    assert(ev.skip(n as int) =~= Seq::<Seq<char>>::empty());
    let empty: Vec<char> = Vec::new();
    assert(empty@ =~= Seq::<char>::empty());
    empty
}

/// A configuration line of the fixed form the external tool prints:
/// the label, a colon, a space, and the keypair path.
pub open spec fn config_line(path: Seq<char>) -> Seq<char> {
    keypair_label() + seq![':', ' '] + path
}

/// Parsing recovers the keypair path from a configuration line of the fixed
/// form `Keypair Path: <path>`: when the path holds no separator or line
/// break, the parsed path is exactly the written one, trimmed, and the
/// parsed wallet is its file stem.
pub proof fn lemma_config_line_parses(path: Seq<char>)
    requires
        !path.contains(':'),
        !path.contains('\n'),
        !path.contains('\r'),
    ensures
        spec_active_keypair_path(config_line(path)) == Some(trimmed(path)),
        spec_active_wallet(config_line(path)) == spec_file_stem(trimmed(path)),
{
    let label = keypair_label();
    let cfg = config_line(path);
    assert(label.len() == 12);
    assert(forall|i: int| 0 <= i < 12 ==> label[i] != ':' && label[i] != '\n' && label[i]
        != '\r') by {
        assert(label[0] == 'K');
        assert(label[1] == 'e');
        assert(label[2] == 'y');
        assert(label[3] == 'p');
        assert(label[4] == 'a');
        assert(label[5] == 'i');
        assert(label[6] == 'r');
        assert(label[7] == ' ');
        assert(label[8] == 'P');
        assert(label[9] == 'a');
        assert(label[10] == 't');
        assert(label[11] == 'h');
    }
    // The whole line holds no line break, so it is the one line of the text.
    assert(!cfg.contains('\n')) by {
        assert(forall|i: int| 0 <= i < cfg.len() && i < 12 ==> cfg[i] == label[i]);
        assert(cfg[12] == ':');
        assert(cfg[13] == ' ');
        assert(forall|i: int| 14 <= i < cfg.len() ==> cfg[i] == path[i - 14]);
        assert(forall|i: int| 0 <= i < path.len() ==> path[i] != '\n');
    }
    crate::text::lemma_split_on_no_sep(cfg, '\n');
    assert(spec_lines(cfg) =~~= seq![cfg]) by {
        let segs = split_on(cfg, '\n');
        assert(segs == seq![cfg]);
        assert(segs.len() == 1);
        assert(cfg.len() > 0);
    }
    // The label occurs in that line, at its very start.
    assert(contains_seq(cfg, label)) by {
        assert(cfg.subrange(0, 12) =~= label);
        assert(crate::text::matches_at(cfg, 0, label));
    }
    assert(first_line_with(seq![cfg], label) == Some(cfg)) by {
        assert(seq![cfg][0] == cfg);
    }
    // Splitting the line on ':' leaves the label and the path's segment.
    let head = label + seq![':'];
    let tail = seq![' '] + path;
    crate::text::lemma_split_on_no_sep(label, ':');
    assert(split_on(head, ':') =~~= seq![label, Seq::<char>::empty()]) by {
        assert(head.last() == ':');
        assert(head.drop_last() =~= label);
    }
    assert(!tail.contains(':')) by {
        assert(tail[0] == ' ');
        assert(forall|i: int| 1 <= i < tail.len() ==> tail[i] == path[i - 1]);
        assert(forall|i: int| 0 <= i < path.len() ==> path[i] != ':');
    }
    crate::text::lemma_split_on_extend(head, tail, ':');
    assert(cfg =~= head + tail);
    let segs = split_on(cfg, ':');
    assert(segs =~~= seq![label, tail]) by {
        assert(Seq::<char>::empty() + tail =~= tail);
    }
    assert(segs.len() == 2);
    assert(segs[1] == tail);
    // A leading space disappears in trimming.
    assert(trimmed(tail) == trimmed(path)) by {
        assert(tail[0] == ' ');
        assert(crate::text::is_space(' '));
        assert(tail.skip(1) =~= path);
    }
}

/// For a wallet keypair file's name, the general file-stem rule and the
/// wallet-name rule agree: the stem of a slash-free `<name>.json` is the
/// wallet name.
pub proof fn lemma_wallet_file_stem(name: Seq<char>)
    requires
        is_wallet_file(name),
        !name.contains('/'),
    ensures
        spec_file_stem(name) == Some(wallet_stem(name)),
{
    let m = name.len() as int;
    let tail = name.skip(m - 5);
    assert(m >= 6);
    assert(tail[0] == name[m - 5]);
    assert(tail[1] == name[m - 4]);
    assert(tail[2] == name[m - 3]);
    assert(tail[3] == name[m - 2]);
    assert(tail[4] == name[m - 1]);
    assert(name[m - 5] == '.' && name[m - 4] == 'j' && name[m - 3] == 's' && name[m - 2] == 'o'
        && name[m - 1] == 'n');
    // No '/' anywhere: the whole name is its own final component.
    assert(name.last() != '/');
    crate::paths::lemma_rfind_none(name, '/');
    assert(crate::paths::final_component(name) == name);
    // The last '.' is the extension's: the four characters after it are not dots.
    let d1 = name.drop_last();
    let d2 = d1.drop_last();
    let d3 = d2.drop_last();
    let d4 = d3.drop_last();
    assert(d1.last() == name[m - 2]);
    assert(d2.last() == d1[m - 3] && d1[m - 3] == name[m - 3]);
    assert(d3.last() == d2[m - 4] && d2[m - 4] == name[m - 4]);
    assert(d4.last() == d3[m - 5] && d3[m - 5] == name[m - 5]);
    assert(crate::paths::rfind(name, '.') == crate::paths::rfind(d1, '.'));
    assert(crate::paths::rfind(d1, '.') == crate::paths::rfind(d2, '.'));
    assert(crate::paths::rfind(d2, '.') == crate::paths::rfind(d3, '.'));
    assert(d3.len() == m - 3);
    assert(d3.last() == 'j');
    assert(crate::paths::rfind(d3, '.') == crate::paths::rfind(d4, '.'));
    assert(d4.len() == m - 4);
    assert(d4.last() == '.');
    assert(crate::paths::rfind(d4, '.') == Some(m - 5));
    assert(name != seq!['.'] && name != seq!['.', '.']);
    assert(spec_file_stem(name) == Some(name.take(m - 5)));
}

/// Building and parsing agree: the keypair file path built for a wallet
/// name has that very name as its file stem, wherever the directory lies.
pub proof fn lemma_wallet_path_round_trip(dir: Seq<char>, name: Seq<char>)
    requires
        name.len() > 0,
        !name.contains('/'),
    ensures
        spec_file_stem(spec_join(dir, name + json_suffix())) == Some(name),
{
    let file = name + json_suffix();
    let p = spec_join(dir, file);
    assert(file.len() == name.len() + 5);
    assert forall|i: int| 0 <= i < file.len() implies file[i] != '/' by {
        if i < name.len() {
            assert(file[i] == name[i]);
        } else {
            assert(file[i] == json_suffix()[i - name.len()]);
        }
    }
    assert(!file.contains('/'));
    assert(file.last() == 'n') by {
        assert(file[file.len() - 1] == json_suffix()[4]);
    }
    assert(is_wallet_file(file)) by {
        assert(file.skip(file.len() - 5) =~= json_suffix());
    }
    lemma_wallet_file_stem(file);
    assert(wallet_stem(file) =~= name);
    if dir.len() == 0 {
        assert(p == file);
    } else {
        // The joined path ends in the file part, so its stem is the file's.
        crate::paths::lemma_rfind_none(file, '/');
        assert(crate::paths::final_component(file) == file);
        if dir.last() == '/' {
            assert(p == dir + file);
            assert(p.last() == file.last());
            assert(crate::paths::strip_trailing_slashes(p) == p);
            crate::paths::lemma_rfind_concat(dir, file, '/');
            assert(crate::paths::rfind(dir, '/') == Some(dir.len() - 1));
            assert(crate::paths::rfind(p, '/') == Some(dir.len() - 1));
            assert(p.skip(dir.len() as int) =~= file);
            assert(crate::paths::final_component(p) == file);
        } else {
            let head = dir + seq!['/'];
            assert(p =~= head + file);
            assert(p.last() == file.last()) by {
                assert((head + file).last() == file.last());
            }
            assert(crate::paths::strip_trailing_slashes(p) == p);
            crate::paths::lemma_rfind_concat(head, file, '/');
            assert(crate::paths::rfind(head, '/') == Some(dir.len() as int)) by {
                assert(head.last() == '/');
            }
            assert(crate::paths::rfind(p, '/') == Some(dir.len() as int));
            assert(p.skip(dir.len() as int + 1) =~= file);
            assert(crate::paths::final_component(p) == file);
        }
    }
}

proof fn lemma_seq_contains_split(s: Seq<Seq<char>>, x: Seq<char>)
    requires
        s.len() > 0,
    ensures
        s.contains(x) <==> (s.drop_last().contains(x) || s.last() == x),
{
    if s.contains(x) {
        let i = choose|i: int| 0 <= i < s.len() && s[i] == x;
        if i < s.len() - 1 {
            assert(s.drop_last()[i] == x);
        }
    }
    if s.drop_last().contains(x) {
        let i = choose|i: int| 0 <= i < s.drop_last().len() && s.drop_last()[i] == x;
        assert(s[i] == x);
    }
    if s.last() == x {
        assert(s[s.len() - 1] == x);
    }
}

/// Listing is sound and complete: a non-empty name stands among the wallet
/// names exactly when its keypair file stands among the directory entries.
pub proof fn lemma_wallet_names_membership(entries: Seq<Seq<char>>, w: Seq<char>)
    requires
        w.len() > 0,
    ensures
        spec_wallet_names(entries).contains(w) <==> entries.contains(w + json_suffix()),
    decreases entries.len(),
{
    let file = w + json_suffix();
    assert(file.len() == w.len() + 5);
    if entries.len() == 0 {
        assert(!spec_wallet_names(entries).contains(w));
        assert(!entries.contains(file));
    } else {
        lemma_wallet_names_membership(entries.drop_last(), w);
        lemma_seq_contains_split(entries, file);
        let e = entries.last();
        let rest = spec_wallet_names(entries.drop_last());
        if is_wallet_file(e) {
            let names = rest.push(wallet_stem(e));
            assert(spec_wallet_names(entries) == names);
            lemma_seq_contains_split(names, w);
            assert(names.drop_last() =~= rest);
            assert(names.last() == wallet_stem(e));
            // The last entry's stem is the name exactly when the entry is
            // the name's keypair file.
            if wallet_stem(e) == w {
                assert(e.len() == w.len() + 5);
                assert(e =~= file) by {
                    assert forall|i: int| 0 <= i < e.len() implies e[i] == file[i] by {
                        if i < e.len() - 5 {
                            assert(wallet_stem(e)[i] == e[i]);
                            assert(file[i] == w[i]);
                        } else {
                            assert(e.skip(e.len() - 5)[i - (e.len() - 5)] == e[i]);
                            assert(file[i] == json_suffix()[i - w.len()]);
                        }
                    }
                }
            }
            if e == file {
                assert(wallet_stem(e) =~= w);
            }
        } else {
            assert(spec_wallet_names(entries) == rest);
            assert(is_wallet_file(file)) by {
                assert(file.skip(file.len() - 5) =~= json_suffix());
            }
            assert(e != file);
        }
    }
}

/// The whole cycle holds together: when a wallet's keypair file path is
/// written into the configuration and the configuration output is read
/// back, the active wallet is exactly that wallet. The name must be free of
/// path and line separators, and the path must not begin with whitespace.
pub proof fn lemma_config_round_trip(dir: Seq<char>, name: Seq<char>)
    requires
        name.len() > 0,
        forall|i: int|
            0 <= i < name.len() ==> name[i] != '/' && name[i] != ':' && name[i] != '\n'
                && name[i] != '\r',
        forall|i: int|
            0 <= i < dir.len() ==> dir[i] != ':' && dir[i] != '\n' && dir[i] != '\r',
        dir.len() > 0 ==> !crate::text::is_space(dir[0]),
        dir.len() == 0 ==> !crate::text::is_space(name[0]),
    ensures
        spec_active_wallet(config_line(spec_join(dir, name + json_suffix()))) == Some(name),
{
    let file = name + json_suffix();
    let p = spec_join(dir, file);
    assert(!name.contains('/'));
    lemma_wallet_path_round_trip(dir, name);
    assert forall|i: int|
        0 <= i < file.len() implies file[i] != ':' && file[i] != '\n' && file[i] != '\r' by {
        if i < name.len() {
            assert(file[i] == name[i]);
        } else {
            assert(file[i] == json_suffix()[i - name.len()]);
        }
    }
    assert(file.last() == 'n') by {
        assert(file[file.len() - 1] == json_suffix()[4]);
    }
    assert forall|i: int| 0 <= i < p.len() implies p[i] != ':' && p[i] != '\n' && p[i]
        != '\r' by {
        if dir.len() == 0 {
            assert(p[i] == file[i]);
        } else if dir.last() == '/' {
            if i < dir.len() {
                assert(p[i] == dir[i]);
            } else {
                assert(p[i] == file[i - dir.len()]);
            }
        } else {
            if i < dir.len() {
                assert(p[i] == dir[i]);
            } else if i == dir.len() {
                assert(p[i] == '/');
            } else {
                assert(p[i] == file[i - dir.len() - 1]);
            }
        }
    }
    assert(!p.contains(':'));
    assert(!p.contains('\n'));
    assert(!p.contains('\r'));
    lemma_config_line_parses(p);
    // The built path has no surrounding whitespace, so trimming keeps it.
    assert(trimmed(p) == p) by {
        if dir.len() == 0 {
            assert(p[0] == name[0]);
        } else {
            assert(p[0] == dir[0]);
        }
        assert(!crate::text::is_space(p[0]));
        assert(crate::text::trim_front(p) == p);
        if dir.len() == 0 {
            assert(p.last() == file.last());
        } else if dir.last() == '/' {
            assert(p.last() == file.last());
        } else {
            assert(p.last() == file.last()) by {
                assert((dir + seq!['/'] + file).last() == file.last());
            }
        }
        assert(!crate::text::is_space('n'));
        assert(crate::text::trim_back(p) == p);
    }
}

proof fn lemma_names_without_excludes(names: Seq<Seq<char>>, removed: Seq<char>)
    ensures
        forall|k: int|
            0 <= k < names_without(names, removed).len() ==> names_without(names, removed)[k]
                != removed,
    decreases names.len(),
{
    if names.len() > 0 {
        lemma_names_without_excludes(names.skip(1), removed);
        let w = names_without(names, removed);
        let rest = names_without(names.skip(1), removed);
        if names[0] != removed {
            assert(w == seq![names[0]] + rest);
            assert(forall|k: int| 1 <= k < w.len() ==> w[k] == rest[k - 1]);
        }
    }
}

proof fn lemma_names_without_members(names: Seq<Seq<char>>, removed: Seq<char>)
    ensures
        forall|k: int|
            0 <= k < names_without(names, removed).len() ==> names.contains(
                names_without(names, removed)[k],
            ),
    decreases names.len(),
{
    if names.len() > 0 {
        lemma_names_without_members(names.skip(1), removed);
        let w = names_without(names, removed);
        let rest = names_without(names.skip(1), removed);
        assert forall|k: int| 0 <= k < w.len() implies names.contains(w[k]) by {
            if names[0] == removed {
                assert(w == rest);
                assert(names.skip(1).contains(w[k]));
                let j = choose|j: int|
                    0 <= j < names.skip(1).len() && names.skip(1)[j] == w[k];
                assert(names[j + 1] == w[k]);
            } else {
                assert(w == seq![names[0]] + rest);
                if k == 0 {
                    assert(w[0] == names[0]);
                } else {
                    assert(w[k] == rest[k - 1]);
                    assert(names.skip(1).contains(w[k]));
                    let j = choose|j: int|
                        0 <= j < names.skip(1).len() && names.skip(1)[j] == w[k];
                    assert(names[j + 1] == w[k]);
                }
            }
        }
    }
}

/// Reassigning the active wallet after a removal is sound: with the
/// fallback keypair file present the fallback name is chosen; without it,
/// as long as any other wallet remains, the chosen wallet is one of the
/// listed names and never the removed one.
pub proof fn lemma_next_active_sound(names: Seq<Seq<char>>, removed: Seq<char>, id_present: bool)
    requires
        !id_present ==> names_without(names, removed).len() > 0,
    ensures
        id_present ==> spec_next_active(names, removed, id_present) == id_name(),
        !id_present ==> spec_next_active(names, removed, id_present) != removed,
        !id_present ==> names.contains(spec_next_active(names, removed, id_present)),
{
    if !id_present {
        lemma_names_without_excludes(names, removed);
        lemma_names_without_members(names, removed);
    }
}

/// What a removal request may do, decided before anything is touched.
#[derive(PartialEq, Eq, Structural, Clone, Copy, Debug)]
pub enum RemovalPrecheck {
    /// The named wallet has no keypair file: nothing is removed.
    MissingWallet,
    /// The named wallet is the only one: removing it is refused.
    LastWallet,
    /// The wallet exists and others remain: removal may go ahead.
    Proceed,
}

/// What a rename request may do, decided before anything is touched.
#[derive(PartialEq, Eq, Structural, Clone, Copy, Debug)]
pub enum RenamePrecheck {
    /// The wallet to rename has no keypair file.
    MissingWallet,
    /// A wallet already carries the new name.
    NameTaken,
    /// The rename may go ahead.
    Proceed,
}

/// Decides a removal request. A missing wallet is reported before the
/// last-wallet rule is consulted.
pub fn removal_precheck(wallet_exists: bool, wallet_count: usize) -> (r: RemovalPrecheck)
    ensures
        r == (if !wallet_exists {
            RemovalPrecheck::MissingWallet
        } else if wallet_count == 1 {
            RemovalPrecheck::LastWallet
        } else {
            RemovalPrecheck::Proceed
        }),
{
    if !wallet_exists {
        RemovalPrecheck::MissingWallet
    } else if wallet_count == 1 {
        RemovalPrecheck::LastWallet
    } else {
        RemovalPrecheck::Proceed
    }
}

/// Decides a rename request. A missing source wallet is reported before the
/// target name is examined.
pub fn rename_precheck(old_exists: bool, new_exists: bool) -> (r: RenamePrecheck)
    ensures
        r == (if !old_exists {
            RenamePrecheck::MissingWallet
        } else if new_exists {
            RenamePrecheck::NameTaken
        } else {
            RenamePrecheck::Proceed
        }),
{
    if !old_exists {
        RenamePrecheck::MissingWallet
    } else if new_exists {
        RenamePrecheck::NameTaken
    } else {
        RenamePrecheck::Proceed
    }
}

/// The file name of a wallet's keypair file: `<name>.json`.
pub fn wallet_file_name(name: &Vec<char>) -> (r: Vec<char>)
    ensures
        r@ == name@ + json_suffix(),
{
    let mut r = copy_chars(name);
    r.push('.');
    r.push('j');
    r.push('s');
    r.push('o');
    r.push('n');
    assert(r@ =~= name@ + json_suffix());
    r
}

/// The path of a wallet's keypair file below a directory.
pub fn wallet_path_in(dir: &Vec<char>, name: &Vec<char>) -> (r: Vec<char>)
    ensures
        r@ == spec_join(dir@, name@ + json_suffix()),
{
    let file = wallet_file_name(name);
    join_path(dir, &file)
}

/// The file name of the fallback wallet's keypair file.
pub fn id_wallet_file_name() -> (r: Vec<char>)
    ensures
        r@ == id_name() + json_suffix(),
{
    let id = id_name_chars();
    wallet_file_name(&id)
}

/// Relies on dirs::home_dir: the platform's home directory for the current
/// user, if it reports one, here as its characters. The result depends on
/// the environment, so nothing is promised of it.
#[verifier::external_body]
pub(crate) fn home_directory() -> (r: Option<Vec<char>>) {
    dirs::home_dir().and_then(|p| p.to_str().map(|s| s.chars().collect()))
}

/// The wallet directory: `.config/solana` below the home directory, when
/// the platform reports one.
pub fn wallet_directory() -> (r: Option<Vec<char>>)
    ensures
        r matches Some(d) ==> d@.len() >= config_subdir().len() && d@.skip(
            d@.len() - config_subdir().len(),
        ) == config_subdir(),
{
    match home_directory() {
        None => None,
        Some(h) => {
            let sub = config_subdir_chars();
            let d = join_path(&h, &sub);
            proof {
                if h@.len() == 0 {
                    assert(d@.skip(d@.len() - config_subdir().len()) =~= config_subdir());
                } else if h@.last() == '/' {
                    assert(d@.skip(d@.len() - config_subdir().len()) =~= config_subdir());
                } else {
                    assert(d@.skip(d@.len() - config_subdir().len()) =~= config_subdir());
                }
            }
            Some(d)
        },
    }
}

} // verus!
