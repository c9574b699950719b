//! What writing a collection, and showing it, promise: what was written reads
//! back, and what was asked to be shown is shown.

use vstd::prelude::*;
use crate::eslist;
use crate::gamelist;
use crate::lines;
use crate::order;
use crate::path_set;
use crate::paths;
use crate::text;
use crate::xml;

verus! {

// ---------------------------------------------------------------------------
// Collection files
// ---------------------------------------------------------------------------

/// The lines that stay have an entry for a path where the file had one and the
/// collection has the path.
proof fn lemma_kept_lists(ls: Seq<Seq<char>>, entries: Seq<Seq<char>>, p: Seq<char>)
    ensures
        eslist::lists(eslist::kept(ls, entries), p) == (eslist::lists(ls, p) && path_set::holds_path(
            entries,
            p,
        )),
    decreases ls.len(),
{
    if ls.len() == 0 {
    } else {
        let front = ls.drop_last();
        let l = ls.last();
        let q = text::trim(l);
        lemma_kept_lists(front, entries, p);
        lemma_lists_push(front, l, p);
        assert(front.push(l) =~= ls);
        lemma_lists_push(eslist::kept(front, entries), l, p);
        if eslist::is_entry(l) && paths::components(q) == paths::components(p) {
            lemma_same_path(front, entries, q, p);
        }
    }
}

/// Two ways to write a path are the same path.
proof fn lemma_same_path(ls: Seq<Seq<char>>, entries: Seq<Seq<char>>, p: Seq<char>, q: Seq<char>)
    requires
        paths::components(p) == paths::components(q),
    ensures
        eslist::lists(ls, p) == eslist::lists(ls, q),
        path_set::holds_path(entries, p) == path_set::holds_path(entries, q),
{
}

proof fn lemma_lists_push(ls: Seq<Seq<char>>, l: Seq<char>, p: Seq<char>)
    ensures
        eslist::lists(ls.push(l), p) == (eslist::lists(ls, p) || (eslist::is_entry(l)
            && paths::components(text::trim(l)) == paths::components(p))),
{
    let all = ls.push(l);
    if eslist::lists(ls, p) {
        let i = choose|i: int|
            0 <= i < ls.len() && eslist::is_entry(#[trigger] ls[i]) && paths::components(
                text::trim(ls[i]),
            ) == paths::components(p);
        assert(all[i] == ls[i]);
    }
    if eslist::is_entry(l) && paths::components(text::trim(l)) == paths::components(p) {
        assert(all[ls.len() as int] == l);
    }
    if eslist::lists(all, p) {
        let i = choose|i: int|
            0 <= i < all.len() && eslist::is_entry(#[trigger] all[i]) && paths::components(
                text::trim(all[i]),
            ) == paths::components(p);
        if i < ls.len() {
            assert(ls[i] == all[i]);
        }
    }
}

proof fn lemma_lists_add(a: Seq<Seq<char>>, b: Seq<Seq<char>>, p: Seq<char>)
    ensures
        eslist::lists(a + b, p) == (eslist::lists(a, p) || eslist::lists(b, p)),
    decreases b.len(),
{
    if b.len() == 0 {
        assert(a + b =~= a);
    } else {
        lemma_lists_add(a, b.drop_last(), p);
        assert(a + b =~= (a + b.drop_last()).push(b.last()));
        lemma_lists_push(a + b.drop_last(), b.last(), p);
        assert(b.drop_last().push(b.last()) =~= b);
        lemma_lists_push(b.drop_last(), b.last(), p);
    }
}

/// A path written so that a line of its own is an entry for it.
pub open spec fn is_plain(p: Seq<char>) -> bool {
    eslist::is_entry(p) && text::trim(p) == p && lines::clean(p)
}

/// The lines put in at the end have an entry for every path that had none.
proof fn lemma_missing_lists(ls: Seq<Seq<char>>, entries: Seq<Seq<char>>, p: Seq<char>)
    requires
        forall|i: int|
            0 <= i < entries.len() && !eslist::lists(ls, #[trigger] entries[i]) ==> is_plain(entries[i]),
    ensures
        eslist::lists(eslist::missing(ls, entries), p) == (path_set::holds_path(entries, p)
            && !eslist::lists(ls, p)),
    decreases entries.len(),
{
    let f = |q: Seq<char>| !eslist::lists(ls, q);
    if entries.len() == 0 {
        reveal(Seq::filter);
        assert(eslist::missing(ls, entries) =~= Seq::empty());
    } else {
        let front = entries.drop_last();
        let e = entries.last();
        assert forall|i: int| 0 <= i < front.len() && !eslist::lists(ls, #[trigger] front[i]) implies is_plain(
            front[i],
        ) by {
            assert(front[i] == entries[i]);
        }
        lemma_missing_lists(ls, front, p);
        assert(front.push(e) =~= entries);
        front.lemma_filter_push(e, f);
        lemma_holds_push(front, e, p);
        if f(e) {
            assert(is_plain(entries[entries.len() - 1]));
            lemma_lists_push(eslist::missing(ls, front), e, p);
        }
        if paths::components(e) == paths::components(p) {
            lemma_same_path(ls, entries, e, p);
        }
    }
}

proof fn lemma_holds_push(es: Seq<Seq<char>>, e: Seq<char>, p: Seq<char>)
    ensures
        path_set::holds_path(es.push(e), p) == (path_set::holds_path(es, p) || paths::components(e)
            == paths::components(p)),
{
    let all = es.push(e);
    if path_set::holds_path(es, p) {
        let i = choose|i: int|
            0 <= i < es.len() && paths::components(#[trigger] es[i]) == paths::components(p);
        assert(all[i] == es[i]);
    }
    if paths::components(e) == paths::components(p) {
        assert(all[es.len() as int] == e);
    }
    if path_set::holds_path(all, p) {
        let i = choose|i: int|
            0 <= i < all.len() && paths::components(#[trigger] all[i]) == paths::components(p);
        if i < es.len() {
            assert(es[i] == all[i]);
        }
    }
}

/// What a file should hold has an entry for exactly the paths of the
/// collection.
proof fn lemma_wanted_lists(ls: Seq<Seq<char>>, entries: Seq<Seq<char>>, p: Seq<char>)
    requires
        forall|i: int|
            0 <= i < entries.len() && !eslist::lists(ls, #[trigger] entries[i]) ==> is_plain(entries[i]),
    ensures
        eslist::lists(eslist::wanted_lines(ls, entries), p) == path_set::holds_path(entries, p),
{
    lemma_kept_lists(ls, entries, p);
    lemma_missing_lists(ls, entries, p);
    lemma_lists_add(eslist::kept(ls, entries), eslist::missing(ls, entries), p);
}

/// The lines to write are clean where those read and the paths put in are.
proof fn lemma_wanted_clean(ls: Seq<Seq<char>>, entries: Seq<Seq<char>>)
    requires
        lines::all_clean(ls),
        forall|i: int|
            0 <= i < entries.len() && !eslist::lists(ls, #[trigger] entries[i]) ==> is_plain(entries[i]),
    ensures
        lines::all_clean(eslist::wanted_lines(ls, entries)),
{
    let w = eslist::wanted_lines(ls, entries);
    let k = eslist::kept(ls, entries);
    let f = |q: Seq<char>| !eslist::lists(ls, q);
    lemma_kept_clean(ls, entries);
    assert forall|i: int| 0 <= i < w.len() implies lines::clean(#[trigger] w[i]) by {
        if i < k.len() {
            assert(lines::clean(k[i]));
        } else {
            let m = eslist::missing(ls, entries);
            let p = m[i - k.len()];
            lemma_picked(entries, f, i - k.len());
            assert(entries.contains(p) && f(p));
            let j = entries.index_of(p);
            assert(entries[j] == p);
        }
    }
}

proof fn lemma_kept_clean(ls: Seq<Seq<char>>, entries: Seq<Seq<char>>)
    requires
        lines::all_clean(ls),
    ensures
        lines::all_clean(eslist::kept(ls, entries)),
    decreases ls.len(),
{
    if ls.len() > 0 {
        let front = ls.drop_last();
        assert forall|i: int| 0 <= i < front.len() implies lines::clean(#[trigger] front[i]) by {
            assert(lines::clean(ls[i]));
        }
        lemma_kept_clean(front, entries);
        assert(lines::clean(ls[ls.len() - 1]));
    }
}

/// A collection file that was written reads back as the collection: it lists
/// exactly the paths that are in it.
pub proof fn law_saved_collection_reads_back(ls: Seq<Seq<char>>, entries: Seq<Seq<char>>, p: Seq<char>)
    requires
        lines::all_clean(ls),
        forall|i: int|
            0 <= i < entries.len() && !eslist::lists(ls, #[trigger] entries[i]) ==> is_plain(entries[i]),
    ensures
        eslist::lists(
            lines::lines(eslist::body_of(eslist::wanted_lines(ls, entries))),
            p,
        ) == path_set::holds_path(entries, p),
{
    let w = eslist::wanted_lines(ls, entries);
    lemma_wanted_lists(ls, entries, p);
    lemma_wanted_clean(ls, entries);
    let t = text::join(w, lines::feed());
    if t.len() > 0 {
        lines::lemma_lines_of_joined(w);
    } else {
        assert(lines::lines(eslist::body_of(w)) =~= Seq::empty()) by {
            assert(t =~= Seq::empty());
            assert(text::split(t, '\n') =~= seq![Seq::<char>::empty()]);
        }
        if eslist::lists(w, p) {
            let i = choose|i: int|
                0 <= i < w.len() && eslist::is_entry(#[trigger] w[i]) && paths::components(
                    text::trim(w[i]),
                ) == paths::components(p);
            text::lemma_blank(w[i]);
            assert(w[i].len() > 0) by {
                if w[i].len() == 0 {
                    assert(text::all_space(w[i]));
                }
            }
            lemma_join_longer(w, i);
        }
    }
}

proof fn lemma_join_longer(ls: Seq<Seq<char>>, i: int)
    requires
        0 <= i < ls.len(),
    ensures
        text::join(ls, lines::feed()).len() >= ls[i].len(),
    decreases ls.len(),
{
    if ls.len() > 1 && i < ls.len() - 1 {
        lemma_join_longer(ls.drop_last(), i);
    }
}

/// Comments and blank lines survive a save, in their order.
pub proof fn law_saved_collection_keeps_comments(ls: Seq<Seq<char>>, entries: Seq<Seq<char>>)
    ensures
        eslist::kept(ls, entries).filter(|l: Seq<char>| !eslist::is_entry(l)) == ls.filter(
            |l: Seq<char>| !eslist::is_entry(l),
        ),
    decreases ls.len(),
{
    let f = |l: Seq<char>| !eslist::is_entry(l);
    if ls.len() == 0 {
        assert(eslist::kept(ls, entries) =~= ls);
    } else {
        let front = ls.drop_last();
        let l = ls.last();
        law_saved_collection_keeps_comments(front, entries);
        assert(front.push(l) =~= ls);
        front.lemma_filter_push(l, f);
        eslist::kept(front, entries).lemma_filter_push(l, f);
    }
}

/// A collection file that was written is not written again: it already says
/// what it should.
pub proof fn law_saved_collection_is_settled(ls: Seq<Seq<char>>, entries: Seq<Seq<char>>)
    requires
        path_set::ascending(entries),
        forall|i: int|
            0 <= i < entries.len() && !eslist::lists(ls, #[trigger] entries[i]) ==> is_plain(entries[i]),
    ensures
        ({
            let w = eslist::wanted_lines(ls, entries);
            eslist::wanted_lines(w, entries) == w
        }),
{
    let w = eslist::wanted_lines(ls, entries);
    let k = eslist::kept(ls, entries);
    let m = eslist::missing(ls, entries);
    let f = |q: Seq<char>| !eslist::lists(ls, q);
    // Nothing is missing any more.
    let g = |q: Seq<char>| !eslist::lists(w, q);
    assert forall|i: int| 0 <= i < entries.len() implies !g(#[trigger] entries[i]) by {
        lemma_wanted_lists(ls, entries, entries[i]);
        assert(path_set::holds_path(entries, entries[i]));
    }
    lemma_filter_none(entries, g);
    // And nothing is dropped.
    lemma_kept_again(ls, entries);
    lemma_kept_grows(ls, entries, k, m.len() as int);
    assert(m.take(m.len() as int) =~= m);
    assert(k + m =~= w);
    assert(eslist::wanted_lines(w, entries) =~= w);
}

proof fn lemma_filter_none(s: Seq<Seq<char>>, f: spec_fn(Seq<char>) -> bool)
    requires
        forall|i: int| 0 <= i < s.len() ==> !f(#[trigger] s[i]),
    ensures
        s.filter(f) == Seq::<Seq<char>>::empty(),
    decreases s.len(),
{
    reveal(Seq::filter);
    if s.len() > 0 {
        assert forall|i: int| 0 <= i < s.drop_last().len() implies !f(#[trigger] s.drop_last()[i]) by {
            assert(!f(s[i]));
        }
        lemma_filter_none(s.drop_last(), f);
        assert(!f(s[s.len() - 1]));
    }
}

/// What was kept is kept again.
proof fn lemma_kept_again(ls: Seq<Seq<char>>, entries: Seq<Seq<char>>)
    ensures
        eslist::kept(eslist::kept(ls, entries), entries) == eslist::kept(ls, entries),
    decreases ls.len(),
{
    if ls.len() > 0 {
        let front = ls.drop_last();
        let l = ls.last();
        let k = eslist::kept(front, entries);
        lemma_kept_again(front, entries);
        lemma_kept_lists(front, entries, text::trim(l));
        assert(k.push(l).drop_last() =~= k);
    }
}

/// The lines put in at the end are kept too.
proof fn lemma_kept_grows(ls: Seq<Seq<char>>, entries: Seq<Seq<char>>, k: Seq<Seq<char>>, n: int)
    requires
        k == eslist::kept(ls, entries),
        path_set::ascending(entries),
        0 <= n <= eslist::missing(ls, entries).len(),
        forall|i: int|
            0 <= i < entries.len() && !eslist::lists(ls, #[trigger] entries[i]) ==> is_plain(entries[i]),
    ensures
        ({
            let some = k + eslist::missing(ls, entries).take(n);
            eslist::kept(some, entries) == some
        }),
    decreases n,
{
    let m = eslist::missing(ls, entries);
    let f = |q: Seq<char>| !eslist::lists(ls, q);
    if n == 0 {
        lemma_kept_again(ls, entries);
        assert(k + m.take(0) =~= k);
    } else {
        lemma_kept_grows(ls, entries, k, n - 1);
        let before = k + m.take(n - 1);
        let p = m[n - 1];
        assert(k + m.take(n) =~= before.push(p));
        assert(before.push(p).drop_last() =~= before);
        lemma_picked(entries, f, n - 1);
        let j = entries.index_of(p);
        assert(entries[j] == p && f(p));
        assert(path_set::holds_path(entries, p));
        if eslist::lists(before, p) {
            lemma_lists_add(k, m.take(n - 1), p);
            lemma_kept_lists(ls, entries, p);
            let i = choose|i: int|
                0 <= i < m.take(n - 1).len() && eslist::is_entry(#[trigger] m.take(n - 1)[i])
                    && paths::components(text::trim(m.take(n - 1)[i])) == paths::components(p);
            assert(m[i] == m.take(n - 1)[i]);
            lemma_picked(entries, f, i);
            let h = entries.index_of(m[i]);
            assert(entries[h] == m[i] && f(m[i]));
            lemma_filter_ordered(entries, f, i, n - 1);
            path_set::lemma_irreflexive(paths::components(p));
        }
    }
}

/// What is picked from a list is in it, and is what was to be picked.
pub proof fn lemma_picked(s: Seq<Seq<char>>, f: spec_fn(Seq<char>) -> bool, i: int)
    requires
        0 <= i < s.filter(f).len(),
    ensures
        s.contains(s.filter(f)[i]),
        f(s.filter(f)[i]),
    decreases s.len(),
{
    reveal(Seq::filter);
    let front = s.drop_last();
    let x = s.filter(f)[i];
    if i < front.filter(f).len() {
        lemma_picked(front, f, i);
        let k = front.index_of(x);
        assert(s[k] == x);
    } else {
        assert(s[s.len() - 1] == x);
    }
}

/// What is picked from a list in order is in order.
proof fn lemma_filter_ordered(s: Seq<Seq<char>>, f: spec_fn(Seq<char>) -> bool, i: int, j: int)
    requires
        path_set::ascending(s),
        0 <= i < j < s.filter(f).len(),
    ensures
        paths::less(s.filter(f)[i], s.filter(f)[j]),
    decreases s.len(),
{
    reveal(Seq::filter);
    let front = s.drop_last();
    assert(path_set::ascending(front)) by {
        assert forall|a: int, b: int| 0 <= a < b < front.len() implies paths::less(
            #[trigger] front[a],
            #[trigger] front[b],
        ) by {
            assert(paths::less(s[a], s[b]));
        }
    }
    let picked = front.filter(f);
    if j < picked.len() {
        lemma_filter_ordered(front, f, i, j);
    } else {
        lemma_picked(front, f, i);
        let a = front.index_of(picked[i]);
        assert(front[a] == picked[i]);
        assert(paths::less(s[a], s[s.len() - 1]));
    }
}

// ---------------------------------------------------------------------------
// Settings
// ---------------------------------------------------------------------------

/// A name that stands for itself in a list with commas.
pub open spec fn is_name(n: Seq<char>) -> bool {
    n.len() > 0 && text::trim(n) == n && !n.contains(',')
}

/// Names written with commas between them read back as they are.
proof fn lemma_names_read_back(names: Seq<Seq<char>>)
    requires
        forall|i: int| 0 <= i < names.len() ==> is_name(#[trigger] names[i]),
    ensures
        eslist::names_in(text::join(names, ","@)) == names,
{
    reveal_strlit(",");
    assert(","@ =~= seq![',']);
    let f = |s: Seq<char>| s.len() > 0;
    let v = text::join(names, seq![',']);
    if names.len() == 0 {
        assert(v =~= Seq::empty());
        let ps = text::split(v, ',').map_values(|s: Seq<char>| text::trim(s));
        assert(ps.len() == 1 && ps[0] == text::trim(Seq::empty()));
        text::lemma_blank(Seq::empty());
        lemma_filter_none(ps, f);
        assert(eslist::names_in(v) =~= names);
    } else {
        assert forall|k: int, i: int| 0 <= k < names.len() && 0 <= i < names[k].len() implies
            #[trigger] names[k][i] != ',' by {
            assert(is_name(names[k]));
            assert(names[k].contains(names[k][i]));
        }
        lines::lemma_split_join(names, ',');
        let ps = names.map_values(|s: Seq<char>| text::trim(s));
        assert(ps =~= names) by {
            assert forall|k: int| 0 <= k < names.len() implies ps[k] == names[k] by {
                assert(is_name(names[k]));
            }
        }
        lemma_filter_all(names, f);
    }
}

proof fn lemma_filter_all(s: Seq<Seq<char>>, f: spec_fn(Seq<char>) -> bool)
    requires
        forall|i: int| 0 <= i < s.len() ==> (#[trigger] s[i]).len() > 0,
        forall|x: Seq<char>| x.len() > 0 ==> #[trigger] f(x),
    ensures
        s.filter(f) == s,
    decreases s.len(),
{
    reveal(Seq::filter);
    if s.len() > 0 {
        let front = s.drop_last();
        assert forall|i: int| 0 <= i < front.len() implies (#[trigger] front[i]).len() > 0 by {
            assert(s[i].len() > 0);
        }
        lemma_filter_all(front, f);
        assert(s[s.len() - 1].len() > 0);
        assert(f(s.last()));
        assert(front.push(s.last()) =~= s);
    }
}

/// The names that settings show stand for themselves.
proof fn lemma_shown_are_names(t: Seq<char>)
    ensures
        forall|i: int| 0 <= i < eslist::shown(t).len() ==> is_name(#[trigger] eslist::shown(t)[i]),
{
    match eslist::setting(t, "CollectionSystemsCustom"@) {
        None => {},
        Some(v) => {
            let f = |s: Seq<char>| s.len() > 0;
            let ps = text::split(v, ',');
            let ts = ps.map_values(|s: Seq<char>| text::trim(s));
            lines::lemma_split_pieces(v, ',');
            assert forall|i: int| 0 <= i < eslist::shown(t).len() implies is_name(
                #[trigger] eslist::shown(t)[i],
            ) by {
                let n = eslist::shown(t)[i];
                lemma_picked(ts, f, i);
                assert(ts.contains(n) && f(n));
                let k = ts.index_of(n);
                let p = ps[k];
                assert(n == text::trim(p));
                text::lemma_trim_start(p);
                let s = text::trim_start(p);
                text::lemma_trim_end(s);
                lemma_trim_again(p);
                assert(!n.contains(',')) by {
                    if n.contains(',') {
                        let j = n.index_of(',');
                        assert(s[j] == ',');
                        let h = p.len() - s.len() + j;
                        assert(p[h] == ',');
                        assert(ps[k][h] != ',');
                    }
                }
            }
        },
    }
}

/// Trimming twice is trimming once.
proof fn lemma_trim_again(p: Seq<char>)
    ensures
        text::trim(text::trim(p)) == text::trim(p),
{
    text::lemma_trim_commutes(p);
    let e = text::trim_end(p);
    let n = text::trim(p);
    text::lemma_trim_start(e);
    if n.len() > 0 {
        assert(n.take(0) =~= Seq::<char>::empty());
        text::lemma_trim_start_is(n, 0);
        assert(n.skip(0) =~= n);
    } else {
        text::lemma_blank(n);
        assert(n =~= Seq::<char>::empty());
    }
    text::lemma_trim_of_trim_end(text::trim_start(p));
}

/// The names ES knows collections by hold no comma.
proof fn lemma_es_names_hold_no_comma(w: Seq<char>)
    ensures
        !eslist::es_named(w).contains(','),
{
    if eslist::es_named(w).contains(',') {
        let i = eslist::es_named(w).index_of(',');
        assert(eslist::es_named(w)[i] == eslist::es_char(w[i]));
    }
}

/// A line of a setting, wherever it stands, is read as that setting where none
/// of the name stands before it.
proof fn lemma_setting_reads_back(l: Seq<char>, r: Seq<char>, v: Seq<char>)
    requires
        ({
            let needle = eslist::setting_name("CollectionSystemsCustom"@);
            forall|j: int| 0 <= j && j + needle.len() <= l.len() ==> !text::at(l, needle, j)
        }),
    ensures
        eslist::setting(
            l + eslist::setting_line("CollectionSystemsCustom"@, v) + r,
            "CollectionSystemsCustom"@,
        ) == Some(v),
{
    reveal_strlit("CollectionSystemsCustom");
    reveal_strlit("name=\"");
    reveal_strlit("\"");
    reveal_strlit("\t<string name=\"");
    reveal_strlit("\" value=\"");
    reveal_strlit("value=\"");
    reveal_strlit("\" />");
    let key = "CollectionSystemsCustom"@;
    let needle = eslist::setting_name(key);
    let line = eslist::setting_line(key, v);
    let e = xml::escaped_attr(v);
    let out = l + line + r;
    let n = l.len() as int;
    // The name stands nine characters into the line, and nowhere before.
    assert(needle.len() == 30);
    assert(out.subrange(n + 9, n + 39) =~= needle);
    assert forall|j: int| 0 <= j < n + 9 implies !text::at(out, needle, j) by {
        if text::at(out, needle, j) {
            let s = out.subrange(j, j + 30);
            assert(s[0] == out[j] && s[1] == out[j + 1]);
            if j + 30 <= n {
                assert(l.subrange(j, j + 30) =~= s);
                assert(text::at(l, needle, j));
            } else if j <= n {
                assert(out[n] == '\t');
                assert(s[n - j] == out[n]);
                lemma_no_tab(n - j);
            } else {
                assert(out[j] == line[j - n]);
                assert(out[j + 1] == line[j + 1 - n]);
            }
        }
    }
    text::lemma_find_is(out, needle, 0, n + 9);
    let rest = out.skip(n + 39);
    let tail = " value=\""@;
    assert(rest.subrange(1, 8) =~= "value=\""@);
    assert(rest[0] == ' ');
    assert(!text::at(rest, "value=\""@, 0)) by {
        if text::at(rest, "value=\""@, 0) {
            assert(rest.subrange(0, 7)[0] == rest[0]);
        }
    }
    text::lemma_find_is(rest, "value=\""@, 0, 1);
    let q = 8 + e.len() as int;
    assert(rest.subrange(8, q) =~= e);
    assert(rest.subrange(q, q + 1) =~= "\""@);
    xml::lemma_escaped_holds_no_tag(v);
    assert forall|j: int| 8 <= j < q implies !text::at(rest, "\""@, j) by {
        if text::at(rest, "\""@, j) {
            assert(rest.subrange(j, j + 1)[0] == rest[j]);
            assert(rest.subrange(8, q)[j - 8] == rest[j]);
            assert(e[j - 8] != '"');
        }
    }
    text::lemma_find_is(rest, "\""@, 8, q);
    xml::law_unescape_undoes_escape(v);
}

proof fn lemma_no_tab(i: int)
    requires
        0 <= i < 30,
    ensures
        eslist::setting_name("CollectionSystemsCustom"@)[i] != '\t',
        eslist::setting_name("CollectionSystemsCustom"@)[i] != '\n',
{
    reveal_strlit("CollectionSystemsCustom");
    reveal_strlit("name=\"");
    reveal_strlit("\"");
}

/// A setting that was set reads back.
pub proof fn law_setting_reads_back(t: Seq<char>, v: Seq<char>)
    ensures
        eslist::setting(
            eslist::with_setting(t, "CollectionSystemsCustom"@, v),
            "CollectionSystemsCustom"@,
        ) == Some(v),
{
    let key = "CollectionSystemsCustom"@;
    let needle = eslist::setting_name(key);
    let line = eslist::setting_line(key, v);
    let out = eslist::with_setting(t, key, v);
    text::lemma_find_from(t, needle, 0);
    match text::find(t, needle) {
        None => match text::rfind(t, "</config>"@) {
            Some(c) => {
                text::lemma_rfind_from(t, "</config>"@, t.len() as int);
                let l = t.take(c);
                let r = lines::feed() + t.skip(c);
                assert(out =~= l + line + r);
                assert forall|j: int| 0 <= j && j + needle.len() <= l.len() implies !text::at(
                    l,
                    needle,
                    j,
                ) by {
                    assert(l.subrange(j, j + needle.len()) =~= t.subrange(j, j + needle.len()));
                    assert(!text::at(t, needle, j));
                }
                lemma_setting_reads_back(l, r, v);
            },
            None => {
                assert(out =~= t + line + lines::feed());
                lemma_setting_reads_back(t, lines::feed(), v);
            },
        },
        Some(a) => {
            let start = gamelist::line_start(t, a);
            let end = match text::find_from(t, lines::feed(), a) {
                Some(i) => i,
                None => t.len() as int,
            };
            text::lemma_rfind(t, '\n', a);
            text::lemma_find_from(t, lines::feed(), a);
            let l = t.take(start);
            reveal_strlit("name=\"");
            assert(needle.len() > 0);
            assert(out =~= l + line + t.skip(end));
            assert forall|j: int| 0 <= j && j + needle.len() <= l.len() implies !text::at(l, needle, j) by {
                assert(l.subrange(j, j + needle.len()) =~= t.subrange(j, j + needle.len()));
                assert(!text::at(t, needle, j));
            }
            lemma_setting_reads_back(l, t.skip(end), v);
        },
    }
}

/// Settings rewritten to show some collections show them: the names they
/// showed before and the ones asked for, in order and each once.
pub proof fn law_shown_is_what_was_asked(
    t: Seq<char>,
    wanted: Seq<Seq<char>>,
    names: Seq<Seq<char>>,
    out: Seq<char>,
)
    requires
        eslist::showing(t, wanted, names, out),
        forall|i: int|
            0 <= i < wanted.len() ==> eslist::es_named(#[trigger] wanted[i]).len() > 0 && text::trim(
                eslist::es_named(wanted[i]),
            ) == eslist::es_named(wanted[i]),
    ensures
        eslist::shown(out) == names,
        order::ascending(eslist::shown(out)),
        eslist::shown(out).no_duplicates(),
        eslist::shown(out).to_set() == eslist::shown(t).to_set().union(
            eslist::es_names(wanted).to_set(),
        ),
{
    law_setting_reads_back(t, text::join(names, ","@));
    lemma_shown_are_names(t);
    assert forall|i: int| 0 <= i < names.len() implies is_name(#[trigger] names[i]) by {
        let n = names[i];
        assert(names.to_set().contains(n));
        if eslist::shown(t).contains(n) {
            let k = eslist::shown(t).index_of(n);
            assert(eslist::shown(t)[k] == n);
        } else {
            assert(eslist::es_names(wanted).contains(n));
            let k = eslist::es_names(wanted).index_of(n);
            assert(n == eslist::es_named(wanted[k]));
            lemma_es_names_hold_no_comma(wanted[k]);
        }
    }
    lemma_names_read_back(names);
    assert forall|i: int, j: int| 0 <= i < names.len() && 0 <= j < names.len() && i != j implies names[i]
        != names[j] by {
        order::lemma_irreflexive(names[i]);
        if i < j {
            assert(order::less(names[i], names[j]));
        } else {
            assert(order::less(names[j], names[i]));
        }
    }
}

/// Whether a line is the one that says which collections are shown.
pub open spec fn says_what_is_shown(line: Seq<char>) -> bool {
    text::find(line, eslist::setting_name("CollectionSystemsCustom"@)) is Some
}

/// Settings that a line can be put into without touching another: where none says
/// what is shown, the end of the settings stands at the start of a line.
pub open spec fn ready(t: Seq<char>) -> bool {
    match text::find(t, eslist::setting_name("CollectionSystemsCustom"@)) {
        Some(_) => true,
        None => match text::rfind(t, "</config>"@) {
            Some(c) => c == 0 || t[c - 1] == '\n',
            None => t.len() == 0 || t.last() == '\n',
        },
    }
}

/// The lines above what stands at the start of a line.
spec fn lines_above(l: Seq<char>) -> Seq<Seq<char>> {
    if l.len() == 0 {
        Seq::empty()
    } else {
        text::split(l.drop_last(), '\n')
    }
}

/// The lines below what stands at the end of a line.
spec fn lines_below(r: Seq<char>) -> Seq<Seq<char>> {
    if r.len() == 0 {
        Seq::empty()
    } else {
        text::split(r.skip(1), '\n')
    }
}

/// A line among others, as one of the lines of the whole.
proof fn lemma_line_between(l: Seq<char>, line: Seq<char>, r: Seq<char>)
    requires
        l.len() > 0 ==> l.last() == '\n',
        r.len() > 0 ==> r[0] == '\n',
        forall|i: int| 0 <= i < line.len() ==> line[i] != '\n',
    ensures
        text::split(l + line + r, '\n') == lines_above(l).push(line) + lines_below(r),
{
    lines::lemma_split_one(line, '\n');
    let below = lines_below(r);
    let one = text::split(line + r, '\n');
    assert(one =~= seq![line] + below) by {
        if r.len() > 0 {
            assert(line.push('\n') + r.skip(1) =~= line + r);
            lines::lemma_split_at(line, r.skip(1), '\n');
        } else {
            assert(line + r =~= line);
        }
    }
    if l.len() > 0 {
        assert(l.drop_last().push('\n') + (line + r) =~= l + line + r);
        lines::lemma_split_at(l.drop_last(), line + r, '\n');
    } else {
        assert(l + line + r =~= line + r);
    }
    assert(lines_above(l).push(line) + below =~= lines_above(l) + (seq![line] + below));
}

/// A line put in above another is one line more.
proof fn lemma_line_put_in(l: Seq<char>, line: Seq<char>, r: Seq<char>)
    requires
        l.len() > 0 ==> l.last() == '\n',
        forall|i: int| 0 <= i < line.len() ==> line[i] != '\n',
    ensures
        text::split(l + r, '\n') == lines_above(l) + text::split(r, '\n'),
        text::split(l + line + (lines::feed() + r), '\n') == lines_above(l).push(line) + text::split(
            r,
            '\n',
        ),
{
    let more = lines::feed() + r;
    assert(more.skip(1) =~= r);
    lemma_line_between(l, line, more);
    if l.len() > 0 {
        assert(l.drop_last().push('\n') + r =~= l + r);
        lines::lemma_split_at(l.drop_last(), r, '\n');
    } else {
        assert(l + r =~= r);
        assert(lines_above(l) + text::split(r, '\n') =~= text::split(r, '\n'));
    }
}

/// The line of the setting is one line, and says what is shown.
proof fn lemma_setting_line(v: Seq<char>)
    requires
        !v.contains('\n'),
    ensures
        ({
            let line = eslist::setting_line("CollectionSystemsCustom"@, v);
            &&& says_what_is_shown(line)
            &&& forall|i: int| 0 <= i < line.len() ==> line[i] != '\n'
        }),
{
    reveal_strlit("CollectionSystemsCustom");
    reveal_strlit("name=\"");
    reveal_strlit("\"");
    reveal_strlit("\t<string name=\"");
    reveal_strlit("\" value=\"");
    reveal_strlit("\" />");
    let key = "CollectionSystemsCustom"@;
    let needle = eslist::setting_name(key);
    let line = eslist::setting_line(key, v);
    let e = xml::escaped_attr(v);
    xml::lemma_escaped_stays_on_one_line(v);
    let a = "\t<string name=\""@;
    let b = "\" value=\""@;
    assert forall|i: int| 0 <= i < line.len() implies line[i] != '\n' by {
        let n = a.len() + key.len() + b.len();
        if n <= i < n + e.len() {
            assert(line[i] == e[i - n]);
            assert(e.contains(e[i - n]));
        }
    }
    assert(line.subrange(9, 39) =~= needle);
    assert(text::at(line, needle, 9));
    text::lemma_find_from(line, needle, 0);
}

/// Names without a line feed have none between them.
proof fn lemma_joined_on_one_line(names: Seq<Seq<char>>)
    requires
        forall|i: int| 0 <= i < names.len() ==> !(#[trigger] names[i]).contains('\n'),
    ensures
        !text::join(names, ","@).contains('\n'),
    decreases names.len(),
{
    reveal_strlit(",");
    let all = text::join(names, ","@);
    if names.len() == 1 {
        assert(!names[0].contains('\n'));
    } else if names.len() > 1 {
        let front = names.drop_last();
        assert forall|i: int| 0 <= i < front.len() implies !(#[trigger] front[i]).contains('\n') by {
            assert(!names[i].contains('\n'));
        }
        lemma_joined_on_one_line(front);
        let j = text::join(front, ","@);
        let last = names[names.len() - 1];
        assert(!last.contains('\n'));
        if all.contains('\n') {
            let i = all.index_of('\n');
            assert(all =~= j + ","@ + last);
            if i < j.len() {
                assert(j[i] == '\n');
            } else if i > j.len() {
                assert(last[i - j.len() - 1] == '\n');
            }
        }
    }
}

/// One line for another that says what is shown leaves the rest.
proof fn lemma_others_stay(a: Seq<Seq<char>>, x: Seq<Seq<char>>, y: Seq<Seq<char>>, b: Seq<Seq<char>>)
    requires
        forall|i: int| 0 <= i < x.len() ==> says_what_is_shown(#[trigger] x[i]),
        forall|i: int| 0 <= i < y.len() ==> says_what_is_shown(#[trigger] y[i]),
    ensures
        (a + x + b).filter(|l: Seq<char>| !says_what_is_shown(l)) == (a + y + b).filter(
            |l: Seq<char>| !says_what_is_shown(l),
        ),
    decreases x.len() + y.len() + b.len(),
{
    let f = |l: Seq<char>| !says_what_is_shown(l);
    if b.len() > 0 {
        let c = b.drop_last();
        lemma_others_stay(a, x, y, c);
        assert(a + x + b =~= (a + x + c).push(b.last()));
        assert(a + y + b =~= (a + y + c).push(b.last()));
        (a + x + c).lemma_filter_push(b.last(), f);
        (a + y + c).lemma_filter_push(b.last(), f);
    } else if x.len() > 0 {
        let z = x.drop_last();
        assert forall|i: int| 0 <= i < z.len() implies says_what_is_shown(#[trigger] z[i]) by {
            assert(says_what_is_shown(x[i]));
        }
        lemma_others_stay(a, z, y, b);
        assert(says_what_is_shown(x[x.len() - 1]));
        assert(a + x + b =~= (a + z + b).push(x.last()));
        (a + z + b).lemma_filter_push(x.last(), f);
    } else if y.len() > 0 {
        let z = y.drop_last();
        assert forall|i: int| 0 <= i < z.len() implies says_what_is_shown(#[trigger] z[i]) by {
            assert(says_what_is_shown(y[i]));
        }
        lemma_others_stay(a, x, z, b);
        assert(says_what_is_shown(y[y.len() - 1]));
        assert(a + y + b =~= (a + z + b).push(y.last()));
        (a + z + b).lemma_filter_push(y.last(), f);
    } else {
        assert(a + x + b =~= a + y + b);
    }
}

/// Settings rewritten to show some collections keep every other line as it is and
/// in its order, and gain a line only where none said what is shown.
pub proof fn law_other_settings_stay(
    t: Seq<char>,
    wanted: Seq<Seq<char>>,
    names: Seq<Seq<char>>,
    out: Seq<char>,
)
    requires
        eslist::showing(t, wanted, names, out),
        ready(t),
        forall|i: int| 0 <= i < names.len() ==> !(#[trigger] names[i]).contains('\n'),
    ensures
        text::split(out, '\n').filter(|l: Seq<char>| !says_what_is_shown(l)) == text::split(t, '\n').filter(
            |l: Seq<char>| !says_what_is_shown(l),
        ),
        text::split(out, '\n').len() == text::split(t, '\n').len() + (if text::find(
            t,
            eslist::setting_name("CollectionSystemsCustom"@),
        ) is Some {
            0int
        } else {
            1int
        }),
{
    let key = "CollectionSystemsCustom"@;
    let v = text::join(names, ","@);
    let line = eslist::setting_line(key, v);
    lemma_joined_on_one_line(names);
    lemma_setting_line(v);
    match text::find(t, eslist::setting_name(key)) {
        None => {
            lemma_line_added(t, line, v);
        },
        Some(at) => {
            lemma_line_exchanged(t, line, v, at);
        },
    }
}

/// Where no line says what is shown, one that does is one line more.
proof fn lemma_line_added(t: Seq<char>, line: Seq<char>, v: Seq<char>)
    requires
        ready(t),
        text::find(t, eslist::setting_name("CollectionSystemsCustom"@)) is None,
        line == eslist::setting_line("CollectionSystemsCustom"@, v),
        says_what_is_shown(line),
        forall|i: int| 0 <= i < line.len() ==> line[i] != '\n',
    ensures
        ({
            let out = text::split(eslist::with_setting(t, "CollectionSystemsCustom"@, v), '\n');
            let was = text::split(t, '\n');
            &&& out.filter(|l: Seq<char>| !says_what_is_shown(l)) == was.filter(
                |l: Seq<char>| !says_what_is_shown(l),
            )
            &&& out.len() == was.len() + 1
        }),
{
    let out = eslist::with_setting(t, "CollectionSystemsCustom"@, v);
    let none = Seq::<Seq<char>>::empty();
    let c = match text::rfind(t, "</config>"@) {
        Some(c) => c,
        None => t.len() as int,
    };
    text::lemma_rfind_from(t, "</config>"@, t.len() as int);
    let l = t.take(c);
    let r = t.skip(c);
    assert(t =~= l + r);
    assert(out =~= l + line + (lines::feed() + r));
    lemma_line_put_in(l, line, r);
    let a = lines_above(l);
    let b = text::split(r, '\n');
    assert(a + b =~= a + none + b);
    assert(a.push(line) + b =~= a + seq![line] + b);
    lemma_others_stay(a, none, seq![line], b);
}

/// Where a line says what is shown, another takes its place.
proof fn lemma_line_exchanged(t: Seq<char>, line: Seq<char>, v: Seq<char>, at: int)
    requires
        text::find(t, eslist::setting_name("CollectionSystemsCustom"@)) == Some(at),
        line == eslist::setting_line("CollectionSystemsCustom"@, v),
        says_what_is_shown(line),
        forall|i: int| 0 <= i < line.len() ==> line[i] != '\n',
    ensures
        ({
            let out = text::split(eslist::with_setting(t, "CollectionSystemsCustom"@, v), '\n');
            let was = text::split(t, '\n');
            &&& out.filter(|l: Seq<char>| !says_what_is_shown(l)) == was.filter(
                |l: Seq<char>| !says_what_is_shown(l),
            )
            &&& out.len() == was.len()
        }),
{
    let needle = eslist::setting_name("CollectionSystemsCustom"@);
    let out = eslist::with_setting(t, "CollectionSystemsCustom"@, v);
    let start = gamelist::line_start(t, at);
    let end = line_stop(t, at);
    let was = t.subrange(start, end);
    lemma_line_that_says(t, at);
    let l = t.take(start);
    let r = t.skip(end);
    assert(t =~= l + was + r);
    assert(out =~= l + line + r);
    lemma_line_between(l, was, r);
    lemma_line_between(l, line, r);
    let a = lines_above(l);
    let b = lines_below(r);
    assert(a.push(was) + b =~= a + seq![was] + b);
    assert(a.push(line) + b =~= a + seq![line] + b);
    lemma_others_stay(a, seq![was], seq![line], b);
}

/// Where the line that a place is on ends, before its line feed.
spec fn line_stop(t: Seq<char>, at: int) -> int {
    match text::find_from(t, lines::feed(), at) {
        Some(i) => i,
        None => t.len() as int,
    }
}

/// The line that the name of the setting stands on.
proof fn lemma_line_that_says(t: Seq<char>, at: int)
    requires
        text::find(t, eslist::setting_name("CollectionSystemsCustom"@)) == Some(at),
    ensures
        ({
            let start = gamelist::line_start(t, at);
            let end = line_stop(t, at);
            let was = t.subrange(start, end);
            &&& 0 <= start <= end <= t.len()
            &&& start > 0 ==> t[start - 1] == '\n'
            &&& end < t.len() ==> t[end] == '\n'
            &&& says_what_is_shown(was)
            &&& forall|i: int| 0 <= i < was.len() ==> was[i] != '\n'
        }),
{
    let needle = eslist::setting_name("CollectionSystemsCustom"@);
    let start = gamelist::line_start(t, at);
    let end = line_stop(t, at);
    text::lemma_find_from(t, needle, 0);
    text::lemma_rfind(t, '\n', at);
    lines::lemma_feed_from(t, at);
    reveal_strlit("name=\"");
    reveal_strlit("\"");
    reveal_strlit("CollectionSystemsCustom");
    assert(needle.len() == 30);
    assert(at + 30 <= end) by {
        if end < at + 30 {
            lemma_no_tab(end - at);
            assert(t.subrange(at, at + 30)[end - at] == t[end]);
        }
    }
    let was = t.subrange(start, end);
    assert forall|i: int| 0 <= i < was.len() implies was[i] != '\n' by {
        assert(was[i] == t[start + i]);
    }
    assert(was.subrange(at - start, at - start + 30) =~= t.subrange(at, at + 30));
    assert(text::at(was, needle, at - start));
    text::lemma_find_from(was, needle, 0);
}

} // verus!
