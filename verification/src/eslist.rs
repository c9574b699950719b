//! What EmulationStation thinks a collection is, and which it shows.
//!
//! A collection is a file, `custom-<name>.cfg`, of absolute ROM paths, one per
//! line; and it is shown only if its name is in the settings as well. Every
//! file is copied aside before it is rewritten.

use vstd::prelude::*;
use crate::disk;
use crate::disk::Disk;
use crate::failure::Failure;
use crate::gamelist;
use crate::lines;
use crate::number;
use crate::order;
use crate::path_set;
use crate::path_set::PathSet;
use crate::paths;
use crate::text;
use crate::xml;

verus! {

// ---------------------------------------------------------------------------
// Copies
// ---------------------------------------------------------------------------

/// How many copies of each file are kept.
pub const KEEP: usize = 10;

/// The folder, among the copies, of a file: that of the directory it sits in.
pub open spec fn copy_folder(file: Seq<char>) -> Seq<char> {
    match paths::parent_name(file) {
        Some(n) => n,
        None => "top"@,
    }
}

/// What a file's copies are called after.
pub open spec fn copied_name(file: Seq<char>) -> Seq<char> {
    match paths::name(file) {
        Some(n) => n,
        None => Seq::empty(),
    }
}

/// Where the copy of a file goes: `<backups>/<folder>/<milliseconds>-<name>`,
/// by the time the file was last written, so that bytes that have not changed
/// since the last copy are copied to where they are.
pub open spec fn copy_path(backups: Seq<char>, file: Seq<char>, stamp: nat) -> Seq<char> {
    paths::joined(
        paths::joined(backups, copy_folder(file)),
        number::decimal(stamp) + "-"@ + copied_name(file),
    )
}

/// Where the copy of a file goes.
pub fn back_up(backups: &str, file: &str, stamp: u128) -> (r: String)
    ensures
        r@ == copy_path(backups@, file@, stamp as nat),
{
    let folder = match paths::parent_file_name(file) {
        Some(n) => n,
        None => text::owned("top"),
    };
    let dir = paths::join(backups, &folder);
    let mut name = number::decimal_of(stamp);
    name.append("-");
    match paths::file_name(file) {
        Some(n) => name.append(&n),
        None => {},
    }
    assert(name@ =~= number::decimal(stamp as nat) + "-"@ + copied_name(file@));
    paths::join(&dir, &name)
}

/// The time a copy of a file was made at, where a name is that of such a copy.
pub open spec fn copy_stamp(entry: Seq<char>, name: Seq<char>) -> Option<nat> {
    match text::cut(entry, '-') {
        Some((stamp, rest)) => if rest == name {
            match number::unsigned(stamp) {
                Some(n) => if n <= u128::MAX {
                    Some(n)
                } else {
                    None
                },
                None => None,
            }
        } else {
            None
        },
        None => None,
    }
}

/// Whether one copy is newer than another; of two made at one time, by name.
pub open spec fn newer(a: Seq<char>, b: Seq<char>, name: Seq<char>) -> bool {
    match (copy_stamp(a, name), copy_stamp(b, name)) {
        (Some(x), Some(y)) => x > y || (x == y && order::less(b, a)),
        _ => false,
    }
}

/// How many of some copies of a file are newer than one of them.
pub open spec fn newer_than(entries: Seq<Seq<char>>, one: Seq<char>, name: Seq<char>) -> nat
    decreases entries.len(),
{
    if entries.len() == 0 {
        0
    } else {
        newer_than(entries.drop_last(), one, name) + (if newer(entries.last(), one, name) {
            1nat
        } else {
            0nat
        })
    }
}

/// Whether a copy is one too many: as many newer ones as are kept are there.
pub open spec fn is_stale(entries: Seq<Seq<char>>, one: Seq<char>, name: Seq<char>) -> bool {
    copy_stamp(one, name) is Some && newer_than(entries, one, name) >= KEEP
}

fn copy_stamp_of(entry: &str, name: &str) -> (r: Option<u128>)
    ensures
        match r {
            Some(n) => copy_stamp(entry@, name@) == Some(n as nat),
            None => copy_stamp(entry@, name@) is None,
        },
{
    match text::split_once(entry, '-') {
        Some((stamp, rest)) => if text::same(&rest, name) {
            number::parse_unsigned(&stamp, u128::MAX)
        } else {
            None
        },
        None => None,
    }
}

fn newer_than_of(entries: &Vec<String>, one: &str, stamp: u128, name: &str) -> (r: usize)
    requires
        copy_stamp(one@, name@) == Some(stamp as nat),
    ensures
        r == newer_than(text::texts(entries@), one@, name@),
{
    let ghost all = text::texts(entries@);
    let n: usize = entries.len();
    let mut count: usize = 0;
    let mut i: usize = 0;
    while i < n
        invariant
            n == entries@.len(),
            i <= n,
            count <= i,
            all == text::texts(entries@),
            copy_stamp(one@, name@) == Some(stamp as nat),
            count == newer_than(all.take(i as int), one@, name@),
        decreases n - i,
    {
        assert(all.take(i + 1).drop_last() =~= all.take(i as int));
        match copy_stamp_of(&entries[i], name) {
            Some(s) => {
                if s > stamp || (s == stamp && order::is_less(one, &entries[i])) {
                    count += 1;
                }
            },
            None => {},
        }
        i += 1;
    }
    assert(all.take(n as int) =~= all);
    count
}

/// The copies of a file, among the names in their folder, that are to go: all
/// but the newest.
pub fn stale_copies(entries: &Vec<String>, name: &str) -> (r: Vec<String>)
    ensures
        text::texts(r@) == text::texts(entries@).filter(
            |e: Seq<char>| is_stale(text::texts(entries@), e, name@),
        ),
{
    let ghost all = text::texts(entries@);
    let ghost f = |e: Seq<char>| is_stale(all, e, name@);
    let mut out: Vec<String> = Vec::new();
    let mut i: usize = 0;
    proof {
        reveal(Seq::filter);
        assert(text::texts(out@) =~= all.take(0).filter(f));
    }
    while i < entries.len()
        invariant
            i <= entries@.len(),
            all == text::texts(entries@),
            f == (|e: Seq<char>| is_stale(all, e, name@)),
            text::texts(out@) == all.take(i as int).filter(f),
        decreases entries@.len() - i,
    {
        let ghost before = text::texts(out@);
        proof {
            assert(all.take(i + 1) =~= all.take(i as int).push(all[i as int]));
            all.take(i as int).lemma_filter_push(all[i as int], f);
        }
        match copy_stamp_of(&entries[i], name) {
            Some(s) => {
                if newer_than_of(entries, &entries[i], s, name) >= KEEP {
                    out.push(entries[i].clone());
                    assert(text::texts(out@) =~= before.push(all[i as int]));
                }
            },
            None => {},
        }
        i += 1;
    }
    assert(all.take(entries@.len() as int) =~= all);
    out
}

/// What a file is called while it is written beside the one it replaces.
pub fn temp_path(path: &str) -> (r: String)
    ensures
        r@ == path@ + ".moose"@,
{
    let mut s = text::owned(path);
    s.append(".moose");
    s
}

// ---------------------------------------------------------------------------
// Collection files
// ---------------------------------------------------------------------------

/// A character of a collection's name as ES can have it.
pub open spec fn es_char(c: char) -> char {
    if c == '/' || c == ',' {
        '-'
    } else {
        c
    }
}

/// The name ES knows a collection by: a slash would make its file a directory,
/// and a comma would split one name into two in the settings.
pub open spec fn es_named(name: Seq<char>) -> Seq<char> {
    name.map_values(|c: char| es_char(c))
}

/// The name ES knows a collection by.
pub fn es_name(collection: &str) -> (r: String)
    ensures
        r@ == es_named(collection@),
{
    let c = text::chars_of(collection);
    let mut out: String = String::new();
    let mut i: usize = 0;
    while i < c.len()
        invariant
            i <= c@.len(),
            out@ == es_named(c@.take(i as int)),
        decreases c@.len() - i,
    {
        let x = if c[i] == '/' || c[i] == ',' {
            '-'
        } else {
            c[i]
        };
        let ghost before = out@;
        out.push(x);
        assert(es_named(c@.take(i + 1)) =~= before.push(x));
        i += 1;
    }
    assert(c@.take(c@.len() as int) =~= c@);
    out
}

/// Whether a line of a collection file is a game: not blank, not a comment.
pub open spec fn is_entry(line: Seq<char>) -> bool {
    let l = text::trim(line);
    l.len() > 0 && l[0] != '#'
}

/// Whether some lines have an entry for a path.
pub open spec fn lists(ls: Seq<Seq<char>>, p: Seq<char>) -> bool {
    exists|i: int|
        0 <= i < ls.len() && is_entry(#[trigger] ls[i]) && paths::components(text::trim(ls[i]))
            == paths::components(p)
}

/// The lines of a collection file that stay: comments, blank lines, and the
/// first entry for each path that is in the collection.
pub open spec fn kept(ls: Seq<Seq<char>>, entries: Seq<Seq<char>>) -> Seq<Seq<char>>
    decreases ls.len(),
{
    if ls.len() == 0 {
        Seq::empty()
    } else {
        let rest = kept(ls.drop_last(), entries);
        let l = ls.last();
        if is_entry(l) && (!path_set::holds_path(entries, text::trim(l)) || lists(
            ls.drop_last(),
            text::trim(l),
        )) {
            rest
        } else {
            rest.push(l)
        }
    }
}

/// The paths of a collection that no line has an entry for.
pub open spec fn missing(ls: Seq<Seq<char>>, entries: Seq<Seq<char>>) -> Seq<Seq<char>> {
    entries.filter(|p: Seq<char>| !lists(ls, p))
}

/// The lines a collection file should have: lines keep their places, an entry
/// taken out loses its line, and one put in goes at the end.
pub open spec fn wanted_lines(ls: Seq<Seq<char>>, entries: Seq<Seq<char>>) -> Seq<Seq<char>> {
    kept(ls, entries) + missing(ls, entries)
}

/// The text of a file with these lines.
pub open spec fn body_of(ls: Seq<Seq<char>>) -> Seq<char> {
    let t = text::join(ls, lines::feed());
    if t.len() > 0 {
        t.push('\n')
    } else {
        t
    }
}

/// One `custom-<name>.cfg`: absolute ROM paths, one per line.
pub struct CollectionFile {
    /// Where the file is kept.
    pub path: String,
    /// The games of the collection.
    pub entries: PathSet,
    /// The file as it was read, so that comments, blank lines and the order of
    /// the entries survive a save.
    pub lines: Vec<String>,
}

fn entry_line(line: &str) -> (r: Option<String>)
    ensures
        match r {
            Some(l) => is_entry(line@) && l@ == text::trim(line@),
            None => !is_entry(line@),
        },
{
    let l = text::trimmed(line);
    let c = text::chars_of(&l);
    if c.len() > 0 && c[0] != '#' {
        Some(l)
    } else {
        None
    }
}

/// Whether the first `n` of some lines have an entry for a path.
fn lists_path(ls: &Vec<String>, n: usize, p: &str) -> (r: bool)
    requires
        n <= ls@.len(),
    ensures
        r == lists(text::texts(ls@).take(n as int), p@),
{
    let ghost all = text::texts(ls@).take(n as int);
    let mut i: usize = 0;
    while i < n
        invariant
            i <= n <= ls@.len(),
            all == text::texts(ls@).take(n as int),
            forall|j: int|
                0 <= j < i && is_entry(#[trigger] all[j]) ==> paths::components(text::trim(all[j]))
                    != paths::components(p@),
        decreases n - i,
    {
        assert(all[i as int] == ls@[i as int]@);
        match entry_line(&ls[i]) {
            Some(l) => {
                if paths::same_path(&l, p) {
                    assert(is_entry(all[i as int]));
                    return true;
                }
            },
            None => {},
        }
        i += 1;
    }
    false
}

/// Whether the first entry for a path is the line at `k`, written so.
pub open spec fn first_written(ls: Seq<Seq<char>>, p: Seq<char>, k: int) -> bool {
    0 <= k < ls.len() && is_entry(ls[k]) && text::trim(ls[k]) == p && !lists(ls.take(k), p)
}

/// Whether some lines have an entry for a path, the first of them written so.
pub open spec fn writes(ls: Seq<Seq<char>>, p: Seq<char>) -> bool {
    exists|k: int| first_written(ls, p, k)
}

/// The entries of some lines make the set of their paths, each written as it
/// is the first time.
pub open spec fn entries_read(ls: Seq<Seq<char>>, entries: Seq<Seq<char>>) -> bool {
    &&& forall|i: int| 0 <= i < entries.len() ==> writes(ls, #[trigger] entries[i])
    &&& forall|k: int|
        0 <= k < ls.len() && is_entry(#[trigger] ls[k]) ==> path_set::holds_path(
            entries,
            text::trim(ls[k]),
        )
}

proof fn lemma_entries_read_push(ls: Seq<Seq<char>>, l: Seq<char>, before: Seq<Seq<char>>, after: Seq<Seq<char>>)
    requires
        entries_read(ls, before),
        is_entry(l),
        path_set::holds_path(before, text::trim(l)) ==> after == before,
        !path_set::holds_path(before, text::trim(l)) ==> after.to_set() == before.to_set().insert(
            text::trim(l),
        ),
    ensures
        entries_read(ls.push(l), after),
{
    let p = text::trim(l);
    let all = ls.push(l);
    assert forall|i: int| 0 <= i < after.len() implies writes(all, #[trigger] after[i]) by {
        let q = after[i];
        if before.contains(q) {
            let j = before.index_of(q);
            assert(writes(ls, before[j]));
            let k = choose|k: int| #[trigger] first_written(ls, before[j], k);
            assert(all[k] == ls[k]);
            assert(all.take(k) =~= ls.take(k));
            assert(first_written(all, q, k));
        } else {
            assert(after.to_set().contains(q));
            assert(q == p);
            let k = ls.len() as int;
            assert(all[k] == l);
            assert(all.take(k) =~= ls);
            if lists(ls, p) {
                let m = choose|m: int|
                    0 <= m < ls.len() && is_entry(#[trigger] ls[m]) && paths::components(
                        text::trim(ls[m]),
                    ) == paths::components(p);
                assert(path_set::holds_path(before, text::trim(ls[m])));
                let h = choose|h: int|
                    0 <= h < before.len() && paths::components(#[trigger] before[h])
                        == paths::components(text::trim(ls[m]));
                assert(paths::components(before[h]) == paths::components(p));
                assert(path_set::holds_path(before, p));
            }
            assert(first_written(all, q, k));
        }
    }
    assert forall|k: int| 0 <= k < all.len() && is_entry(#[trigger] all[k]) implies path_set::holds_path(
        after,
        text::trim(all[k]),
    ) by {
        if k < ls.len() {
            assert(is_entry(ls[k]));
            let h = choose|h: int|
                0 <= h < before.len() && paths::components(#[trigger] before[h]) == paths::components(
                    text::trim(ls[k]),
                );
            assert(before.contains(before[h]));
            assert(after.contains(before[h])) by {
                if after != before {
                    assert(after.to_set().contains(before[h]));
                }
            }
            let j = after.index_of(before[h]);
            assert(after[j] == before[h]);
        } else {
            if !path_set::holds_path(before, p) {
                assert(after.to_set().contains(p));
                let j = after.index_of(p);
                assert(after[j] == p);
            }
        }
    }
}

impl CollectionFile {
    /// Where the file is kept.
    pub open spec fn place(self) -> Seq<char> {
        self.path@
    }

    /// The file as it was read, so that comments, blank lines and the order of
    /// the entries survive a save.
    pub open spec fn read_lines(self) -> Seq<Seq<char>> {
        text::texts(self.lines@)
    }

    /// What ES calls the file for a collection of this name.
    pub fn file_name(collection: &str) -> (r: String)
        ensures
            r@ == "custom-"@ + es_named(collection@) + ".cfg"@,
    {
        let mut s = text::owned("custom-");
        s.append(&es_name(collection));
        s.append(".cfg");
        s
    }

    /// A collection file as it was read.
    pub fn from_text(path: &str, text: &str) -> (r: CollectionFile)
        ensures
            r.place() == path@,
            r.read_lines() == lines::lines(text@),
            r.entries.wf(),
            entries_read(lines::lines(text@), r.entries.list()),
    {
        let ls = lines::lines_of(text);
        let ghost all = text::texts(ls@);
        let mut entries = PathSet::new();
        let mut i: usize = 0;
        while i < ls.len()
            invariant
                i <= ls@.len(),
                all == text::texts(ls@),
                entries.wf(),
                entries_read(all.take(i as int), entries.list()),
            decreases ls@.len() - i,
        {
            let ghost before = entries.list();
            assert(all[i as int] == ls@[i as int]@);
            assert(all.take(i + 1) =~= all.take(i as int).push(all[i as int]));
            match entry_line(&ls[i]) {
                Some(p) => {
                    let _ = entries.insert(&p);
                    proof {
                        lemma_entries_read_push(
                            all.take(i as int),
                            all[i as int],
                            before,
                            entries.list(),
                        );
                    }
                },
                None => {
                    proof {
                        lemma_entries_read_skip(all.take(i as int), all[i as int], before);
                    }
                },
            }
            i += 1;
        }
        assert(all.take(ls@.len() as int) =~= all);
        CollectionFile { path: text::owned(path), entries, lines: ls }
    }

    /// The file, or an empty one when there is none yet. Any other failure to
    /// read it is an error: read as empty, it would be a list with no games,
    /// and every one of them would look taken out.
    pub fn load(disk: &Disk, path: &str) -> (r: Result<CollectionFile, Failure>)
        ensures
            match r {
                Ok(c) => c.place() == path@ && c.entries.wf() && match disk::whole_text(
                    disk.at(path@),
                    path@,
                ) {
                    Ok(Some(t)) => c.read_lines() == lines::lines(t) && entries_read(
                        lines::lines(t),
                        c.entries.list(),
                    ),
                    Ok(None) => c.read_lines().len() == 0 && c.entries.list().len() == 0,
                    Err(_) => false,
                },
                Err(e) => disk::whole_text(disk.at(path@), path@) == Err::<
                    Option<Seq<char>>,
                    Seq<Seq<char>>,
                >(e@),
            },
    {
        match disk::read_whole(disk, path) {
            Ok(Some(t)) => Ok(CollectionFile::from_text(path, &t)),
            Ok(None) => Ok(
                CollectionFile {
                    path: text::owned(path),
                    entries: PathSet::new(),
                    lines: Vec::new(),
                },
            ),
            Err(e) => Err(e),
        }
    }

    fn wanted(&self) -> (r: Vec<String>)
        ensures
            text::texts(r@) == wanted_lines(self.read_lines(), self.entries.list()),
    {
        let n: usize = self.lines.len();
        let ghost all = text::texts(self.lines@);
        let ghost entries = self.entries.list();
        let mut out: Vec<String> = Vec::new();
        let mut i: usize = 0;
        assert(text::texts(out@) =~= kept(all.take(0), entries));
        while i < n
            invariant
                n == self.lines@.len(),
                i <= n,
                all == text::texts(self.lines@),
                entries == self.entries.list(),
                text::texts(out@) == kept(all.take(i as int), entries),
            decreases n - i,
        {
            let ghost before = text::texts(out@);
            assert(all[i as int] == self.lines@[i as int]@);
            assert(all.take(i + 1).drop_last() =~= all.take(i as int));
            let drop = match entry_line(&self.lines[i]) {
                Some(p) => !self.entries.contains(&p) || lists_path(&self.lines, i, &p),
                None => false,
            };
            if !drop {
                out.push(self.lines[i].clone());
                assert(text::texts(out@) =~= before.push(all[i as int]));
            }
            i += 1;
        }
        assert(all.take(n as int) =~= all);
        let items = self.entries.items();
        let ghost front = text::texts(out@);
        let ghost f = |p: Seq<char>| !lists(all, p);
        let ghost es = text::texts(items@);
        let mut k: usize = 0;
        proof {
            reveal(Seq::filter);
            assert(es.take(0).filter(f) =~= Seq::empty());
            assert(front + Seq::<Seq<char>>::empty() =~= front);
        }
        while k < items.len()
            invariant
                n == self.lines@.len(),
                k <= items@.len(),
                all == text::texts(self.lines@),
                es == text::texts(items@),
                f == (|p: Seq<char>| !lists(all, p)),
                text::texts(out@) == front + es.take(k as int).filter(f),
            decreases items@.len() - k,
        {
            let ghost before = text::texts(out@);
            assert(es[k as int] == items@[k as int]@);
            assert(all.take(n as int) =~= all);
            proof {
                assert(es.take(k + 1) =~= es.take(k as int).push(es[k as int]));
                es.take(k as int).lemma_filter_push(es[k as int], f);
            }
            if !lists_path(&self.lines, n, &items[k]) {
                out.push(items[k].clone());
                assert(text::texts(out@) =~= before.push(es[k as int]));
                assert(before.push(es[k as int]) =~= front + es.take(k as int).filter(f).push(
                    es[k as int],
                ));
            }
            k += 1;
        }
        assert(es.take(es.len() as int) =~= es);
        out
    }

    /// The text to write back, only when it differs from what is there.
    pub fn save(&self) -> (r: Option<String>)
        ensures
            text::opt(r) == ({
                let want = wanted_lines(self.read_lines(), self.entries.list());
                if want == self.read_lines() {
                    None
                } else {
                    Some(body_of(want))
                }
            }),
    {
        let out = self.wanted();
        if same_list(&out, &self.lines) {
            return None;
        }
        let mut body = lines::join_lines(&out);
        if !text::is_empty(&body) {
            body.push('\n');
        }
        Some(body)
    }

    /// Takes note that what [`CollectionFile::save`] gave was written.
    pub fn saved(&mut self)
        ensures
            final(self).read_lines() == wanted_lines(old(self).read_lines(), old(self).entries.list()),
            final(self).entries == old(self).entries,
            final(self).place() == old(self).place(),
    {
        let out = self.wanted();
        self.lines = out;
    }
}

proof fn lemma_entries_read_skip(ls: Seq<Seq<char>>, l: Seq<char>, entries: Seq<Seq<char>>)
    requires
        entries_read(ls, entries),
        !is_entry(l),
    ensures
        entries_read(ls.push(l), entries),
{
    let all = ls.push(l);
    assert forall|i: int| 0 <= i < entries.len() implies writes(all, #[trigger] entries[i]) by {
        assert(writes(ls, entries[i]));
        let k = choose|k: int| #[trigger] first_written(ls, entries[i], k);
        assert(all[k] == ls[k]);
        assert(all.take(k) =~= ls.take(k));
        assert(first_written(all, entries[i], k));
    }
    assert forall|k: int| 0 <= k < all.len() && is_entry(#[trigger] all[k]) implies path_set::holds_path(
        entries,
        text::trim(all[k]),
    ) by {
        assert(is_entry(ls[k]));
    }
}

/// Whether two lists hold the same texts in the same order.
fn same_list(a: &Vec<String>, b: &Vec<String>) -> (r: bool)
    ensures
        r == (text::texts(a@) == text::texts(b@)),
{
    let r = a.len() == b.len() && paths::begins_with(a, b);
    assert(text::texts(a@).len() == a@.len() && text::texts(b@).len() == b@.len());
    assert(text::texts(a@).subrange(0, text::texts(a@).len() as int) =~= text::texts(a@));
    r
}

// ---------------------------------------------------------------------------
// Settings
// ---------------------------------------------------------------------------

/// How a setting of this name begins.
pub open spec fn setting_name(key: Seq<char>) -> Seq<char> {
    "name=\""@ + key + "\""@
}

/// The value of a setting: what is between the quotes after the next `value=`.
pub open spec fn setting(t: Seq<char>, key: Seq<char>) -> Option<Seq<char>> {
    match text::find(t, setting_name(key)) {
        None => None,
        Some(a) => {
            let rest = t.skip(a + setting_name(key).len());
            match text::find(rest, "value=\""@) {
                None => None,
                Some(v) => match text::find_from(rest, "\""@, v + 7) {
                    None => None,
                    Some(e) => Some(xml::unescaped(rest.subrange(v + 7, e))),
                },
            }
        },
    }
}

/// The line of a setting.
pub open spec fn setting_line(key: Seq<char>, value: Seq<char>) -> Seq<char> {
    "\t<string name=\""@ + key + "\" value=\""@ + xml::escaped_attr(value) + "\" />"@
}

/// The settings with one of them set: on the line it had, or on a new one
/// before the end.
pub open spec fn with_setting(t: Seq<char>, key: Seq<char>, value: Seq<char>) -> Seq<char> {
    let line = setting_line(key, value);
    match text::find(t, setting_name(key)) {
        None => match text::rfind(t, "</config>"@) {
            Some(c) => gamelist::splice(t, c, c, line.push('\n')),
            None => t + line.push('\n'),
        },
        Some(a) => {
            let end = match text::find_from(t, lines::feed(), a) {
                Some(i) => i,
                None => t.len() as int,
            };
            gamelist::splice(t, gamelist::line_start(t, a), end, line)
        },
    }
}

/// The names in a list with commas between them.
pub open spec fn names_in(v: Seq<char>) -> Seq<Seq<char>> {
    text::split(v, ',').map_values(|s: Seq<char>| text::trim(s)).filter(|s: Seq<char>| s.len() > 0)
}

/// The collections that the settings show.
pub open spec fn shown(t: Seq<char>) -> Seq<Seq<char>> {
    match setting(t, "CollectionSystemsCustom"@) {
        Some(v) => names_in(v),
        None => Seq::empty(),
    }
}

/// The names ES knows some collections by.
pub open spec fn es_names(wanted: Seq<Seq<char>>) -> Seq<Seq<char>> {
    wanted.map_values(|w: Seq<char>| es_named(w))
}

/// The settings of which every wanted collection is shown, in place of ones
/// that do not show them all: the names in order, each once.
pub open spec fn showing(t: Seq<char>, wanted: Seq<Seq<char>>, names: Seq<Seq<char>>, out: Seq<char>) -> bool {
    &&& order::ascending(names)
    &&& names.to_set() == shown(t).to_set().union(es_names(wanted).to_set())
    &&& out == with_setting(t, "CollectionSystemsCustom"@, text::join(names, ","@))
}

/// The settings rewritten so that every wanted collection is shown.
pub open spec fn shows(t: Seq<char>, wanted: Seq<Seq<char>>, out: Seq<char>) -> bool {
    exists|names: Seq<Seq<char>>| showing(t, wanted, names, out)
}

fn setting_name_of(key: &str) -> (r: String)
    ensures
        r@ == setting_name(key@),
{
    let mut s = text::owned("name=\"");
    s.append(key);
    s.append("\"");
    s
}

fn setting_value(settings: &str, key: &str) -> (r: Option<String>)
    ensures
        text::opt(r) == setting(settings@, key@),
{
    let t = text::chars_of(settings);
    let needle = text::chars_of(&setting_name_of(key));
    let n: usize = t.len();
    match text::position_from(&t, &needle, 0) {
        None => None,
        Some(a) => {
            let from: usize = a + needle.len();
            let rest = vstd::slice::slice_subrange(t.as_slice(), from, n);
            assert(rest@ =~= t@.skip(from as int));
            let open = text::chars_of("value=\"");
            let quote = text::chars_of("\"");
            proof {
                reveal_strlit("value=\"");
            }
            match text::position_from(rest, &open, 0) {
                None => None,
                Some(v) => {
                    let m: usize = rest.len();
                    match text::position_from(rest, &quote, v + 7) {
                        None => None,
                        Some(e) => Some(xml::unescape(&text::part(rest, v + 7, e))),
                    }
                },
            }
        },
    }
}

fn set_setting(settings: &str, key: &str, value: &str) -> (r: String)
    ensures
        r@ == with_setting(settings@, key@, value@),
{
    let t = text::chars_of(settings);
    let needle = text::chars_of(&setting_name_of(key));
    let n: usize = t.len();
    let mut line = text::owned("\t<string name=\"");
    line.append(key);
    line.append("\" value=\"");
    line.append(&xml::escape_attr(value));
    line.append("\" />");
    match text::position_from(&t, &needle, 0) {
        None => {
            line.push('\n');
            let close = text::chars_of("</config>");
            match text::last_position(&t, &close) {
                Some(c) => text::string_of(&gamelist::spliced(&t, c, c, &line)),
                None => {
                    let mut out = text::owned(settings);
                    out.append(&line);
                    out
                },
            }
        },
        Some(a) => {
            let start: usize = gamelist::line_start_of(&t, a);
            let mut feed: Vec<char> = Vec::new();
            feed.push('\n');
            assert(feed@ =~= lines::feed());
            let end: usize = match text::position_from(&t, &feed, a) {
                Some(i) => i,
                None => n,
            };
            text::string_of(&gamelist::spliced(&t, start, end, &line))
        },
    }
}

/// The collections that ES will actually show.
pub fn enabled_collections(settings: &str) -> (r: Vec<String>)
    ensures
        text::texts(r@) == shown(settings@),
{
    let mut out: Vec<String> = Vec::new();
    match setting_value(settings, "CollectionSystemsCustom") {
        None => {
            assert(text::texts(out@) =~= Seq::<Seq<char>>::empty());
        },
        Some(v) => {
            let ps = text::pieces(&v, ',');
            let ghost all = text::texts(ps@).map_values(|s: Seq<char>| text::trim(s));
            let ghost f = |s: Seq<char>| s.len() > 0;
            let mut i: usize = 0;
            proof {
                reveal(Seq::filter);
                assert(text::texts(out@) =~= all.take(0).filter(f));
            }
            while i < ps.len()
                invariant
                    i <= ps@.len(),
                    all == text::texts(ps@).map_values(|s: Seq<char>| text::trim(s)),
                    f == (|s: Seq<char>| s.len() > 0),
                    text::texts(out@) == all.take(i as int).filter(f),
                decreases ps@.len() - i,
            {
                let ghost before = text::texts(out@);
                proof {
                    assert(all.take(i + 1) =~= all.take(i as int).push(all[i as int]));
                    all.take(i as int).lemma_filter_push(all[i as int], f);
                }
                let p = text::trimmed(&ps[i]);
                if !text::is_empty(&p) {
                    out.push(p);
                    assert(text::texts(out@) =~= before.push(all[i as int]));
                }
                i += 1;
            }
            assert(all.take(all.len() as int) =~= all);
        },
    }
    out
}

/// The settings rewritten so that every named collection is shown; `None` when
/// they already say so.
///
/// The names are those the collections have elsewhere; each goes in under
/// [`es_name`], the name its file has.
pub fn show_collections(settings: &str, wanted: &Vec<String>) -> (r: Option<String>)
    ensures
        match r {
            None => es_names(text::texts(wanted@)).to_set().subset_of(shown(settings@).to_set()),
            Some(out) => {
                &&& !es_names(text::texts(wanted@)).to_set().subset_of(shown(settings@).to_set())
                &&& shows(settings@, text::texts(wanted@), out@)
            },
        },
{
    let now = enabled_collections(settings);
    let ghost shown_now = text::texts(now@);
    let mut names: Vec<String> = Vec::new();
    let mut i: usize = 0;
    assert(text::texts(names@).to_set() =~= shown_now.take(0).to_set());
    while i < now.len()
        invariant
            i <= now@.len(),
            shown_now == text::texts(now@),
            order::ascending(text::texts(names@)),
            text::texts(names@).to_set() == shown_now.take(i as int).to_set(),
        decreases now@.len() - i,
    {
        let _ = order::insert(&mut names, &now[i]);
        proof {
            let x = shown_now[i as int];
            assert(shown_now.take(i + 1) =~= shown_now.take(i as int).push(x));
            shown_now.take(i as int).lemma_push_to_set_commute(x);
        }
        i += 1;
    }
    assert(shown_now.take(now@.len() as int) =~= shown_now);
    let ghost ws = es_names(text::texts(wanted@));
    let mut more: bool = false;
    let mut k: usize = 0;
    assert(text::texts(names@).to_set() =~= shown_now.to_set().union(ws.take(0).to_set()));
    assert(ws.take(0).to_set().subset_of(shown_now.to_set()));
    while k < wanted.len()
        invariant
            k <= wanted@.len(),
            ws == es_names(text::texts(wanted@)),
            order::ascending(text::texts(names@)),
            text::texts(names@).to_set() == shown_now.to_set().union(ws.take(k as int).to_set()),
            more == !ws.take(k as int).to_set().subset_of(shown_now.to_set()),
        decreases wanted@.len() - k,
    {
        let name = es_name(&wanted[k]);
        let ghost before = text::texts(names@);
        let added = order::insert(&mut names, &name);
        proof {
            let x = ws[k as int];
            assert(x == name@);
            let w = ws.take(k as int);
            assert(ws.take(k + 1) =~= w.push(x));
            w.lemma_push_to_set_commute(x);
            assert(before.contains(x) == before.to_set().contains(x));
            assert(text::texts(names@).to_set() =~= shown_now.to_set().union(w.push(x).to_set()));
            if !more {
                assert(w.to_set().subset_of(shown_now.to_set()));
                assert(added == !shown_now.to_set().contains(x));
                if added {
                    assert(w.push(x).to_set().contains(x));
                }
            } else {
                let y = choose|y: Seq<char>|
                    w.to_set().contains(y) && !shown_now.to_set().contains(y);
                assert(w.push(x).to_set().contains(y));
            }
        }
        more = more || added;
        k += 1;
    }
    assert(ws.take(wanted@.len() as int) =~= ws);
    assert(shown_now == shown(settings@));
    assert(more == !ws.to_set().subset_of(shown_now.to_set()));
    if !more {
        return None;
    }
    let joined = text::joined(&names, ",");
    let out = set_setting(settings, "CollectionSystemsCustom", &joined);
    assert(showing(settings@, text::texts(wanted@), text::texts(names@), out@));
    Some(out)
}

/// The text that settings start from where there are none.
pub open spec fn no_settings() -> Seq<char> {
    "<?xml version=\"1.0\"?>\n<config>\n</config>\n"@
}

/// The settings that are there, or the ones to start from.
pub open spec fn settings_at(s: disk::Seen, path: Seq<char>) -> Seq<char> {
    match disk::whole_text(s, path) {
        Ok(Some(t)) => t,
        _ => no_settings(),
    }
}

/// The settings updated so that these collections show, or `None` when they
/// already show them all.
///
/// A missing file starts from an empty `<config>`. Any other failure to read it
/// is an error: read as empty, the rewrite would be a settings file that holds
/// one line.
pub fn settings_showing(disk: &Disk, path: &str, wanted: &Vec<String>) -> (r: Result<
    Option<String>,
    Failure,
>)
    ensures
        wanted@.len() == 0 ==> r matches Ok(None),
        wanted@.len() > 0 ==> ({
            let w = text::texts(wanted@);
            let base = settings_at(disk.at(path@), path@);
            match r {
                Err(e) => disk::whole_text(disk.at(path@), path@) == Err::<
                    Option<Seq<char>>,
                    Seq<Seq<char>>,
                >(e@),
                Ok(None) => {
                    &&& disk::whole_text(disk.at(path@), path@) is Ok
                    &&& es_names(w).to_set().subset_of(shown(base).to_set())
                },
                Ok(Some(out)) => {
                    &&& disk::whole_text(disk.at(path@), path@) is Ok
                    &&& !es_names(w).to_set().subset_of(shown(base).to_set())
                    &&& shows(base, w, out@)
                },
            }
        }),
{
    if wanted.len() == 0 {
        return Ok(None);
    }
    match disk::read_whole(disk, path) {
        Err(e) => Err(e),
        Ok(Some(t)) => Ok(show_collections(&t, wanted)),
        Ok(None) => Ok(
            show_collections("<?xml version=\"1.0\"?>\n<config>\n</config>\n", wanted),
        ),
    }
}

} // verus!
