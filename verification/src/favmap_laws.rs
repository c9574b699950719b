//! A game's path leads back to the game, and no other path leads to one.

use vstd::prelude::*;
use crate::favmap;
use crate::favmap::OnCard;
use crate::lines;
use crate::paths;
use crate::text;

verus! {

/// Whether a piece of a path is a component wherever it stands.
pub open spec fn solid(piece: Seq<char>) -> bool {
    piece.len() > 0 && piece != "."@
}

/// Whether a text is one name: a component without a slash.
pub open spec fn one_name(t: Seq<char>) -> bool {
    solid(t) && !t.contains('/')
}

/// Whether everything between the slashes of a path is a name.
pub open spec fn all_names(p: Seq<char>) -> bool {
    forall|i: int| 0 <= i < text::split(p, '/').len() ==> solid(#[trigger] text::split(p, '/')[i])
}

/// Pieces that count wherever they stand are components of the whole.
proof fn lemma_counted_add(a: Seq<Seq<char>>, b: Seq<Seq<char>>)
    requires
        forall|i: int| 0 <= i < b.len() ==> solid(#[trigger] b[i]),
    ensures
        paths::counted(a + b) == paths::counted(a) + b,
    decreases b.len(),
{
    if b.len() == 0 {
        assert(a + b =~= a);
        assert(paths::counted(a) + b =~= paths::counted(a));
    } else {
        assert forall|i: int| 0 <= i < b.drop_last().len() implies solid(#[trigger] b.drop_last()[i]) by {
            assert(solid(b[i]));
        }
        lemma_counted_add(a, b.drop_last());
        assert((a + b).drop_last() =~= a + b.drop_last());
        assert((a + b).last() == b[b.len() - 1]);
        assert(solid(b[b.len() - 1]));
        assert((paths::counted(a) + b.drop_last()).push(b.last()) =~= paths::counted(a) + b);
    }
}

/// There are no more components before a piece than there are pieces.
proof fn lemma_counted_grows(pieces: Seq<Seq<char>>, i: int, m: int)
    requires
        0 <= i <= m <= pieces.len(),
    ensures
        paths::counted(pieces.take(i)).len() <= paths::counted(pieces.take(m)).len(),
    decreases m - i,
{
    if i < m {
        lemma_counted_grows(pieces, i, m - 1);
        assert(pieces.take(m).drop_last() =~= pieces.take(m - 1));
    }
}

/// Where the component stands that comes after those among the first `m` pieces.
proof fn lemma_piece_of(pieces: Seq<Seq<char>>, i: int, m: int)
    requires
        0 <= i <= m < pieces.len(),
        solid(pieces[m]),
    ensures
        paths::piece_of(
            pieces,
            paths::counted(pieces.take(m)).len() - paths::counted(pieces.take(i)).len(),
            i,
        ) == m,
    decreases m - i,
{
    if i < m {
        lemma_piece_of(pieces, i + 1, m);
        lemma_counted_grows(pieces, i + 1, m);
        assert(pieces.take(i + 1).drop_last() =~= pieces.take(i));
        assert(pieces.take(i + 1).last() == pieces[i]);
    }
}

/// The pieces of a path below a directory: some whose components are those of the
/// directory, and those of the rest.
proof fn lemma_pieces_below(dir: Seq<char>, first: Seq<char>) -> (s: Seq<Seq<char>>)
    requires
        one_name(first),
    ensures
        text::split(paths::joined(dir, first), '/') == s.push(first),
        paths::counted(s) == paths::counted(text::split(dir, '/')),
        paths::absolute(paths::joined(dir, first)) == paths::absolute(dir),
        paths::joined(dir, first).len() > 0,
        paths::joined(dir, first).last() != '/',
{
    reveal_strlit("/");
    assert(first[0] != '/' && first.last() != '/') by {
        if first[0] == '/' || first.last() == '/' {
            assert(first.contains('/'));
        }
    }
    assert forall|i: int| 0 <= i < first.len() implies first[i] != '/' by {
        if first[i] == '/' {
            assert(first.contains('/'));
        }
    }
    lines::lemma_split_one(first, '/');
    let whole = paths::joined(dir, first);
    if dir.len() == 0 {
        assert(whole =~= first);
        let s = Seq::<Seq<char>>::empty();
        assert(s.push(first) =~= seq![first]);
        let one = text::split(dir, '/');
        assert(one =~= seq![Seq::<char>::empty()]);
        assert(one.drop_last() =~= Seq::<Seq<char>>::empty());
        assert(paths::counted(one.drop_last()) =~= Seq::<Seq<char>>::empty());
        assert(one.last().len() == 0);
        assert(paths::counted(one) =~= Seq::<Seq<char>>::empty());
        s
    } else if dir.last() == '/' {
        let d = dir.drop_last();
        assert(d.push('/') =~= dir);
        assert(whole =~= d.push('/') + first);
        lines::lemma_split_at(d, first, '/');
        let s = text::split(d, '/');
        assert(s + seq![first] =~= s.push(first));
        let whole_dir = text::split(dir, '/');
        assert(whole_dir =~= s.push(Seq::empty()));
        assert(whole_dir.drop_last() =~= s);
        s
    } else {
        assert(whole =~= dir.push('/') + first);
        lines::lemma_split_at(dir, first, '/');
        let s = text::split(dir, '/');
        assert(s + seq![first] =~= s.push(first));
        s
    }
}

/// What a collection file holds of a game leads back to the game's system folder
/// and its place in it, wherever the ROMs folder is.
pub proof fn law_a_path_leads_back_to_its_game(roms: Seq<char>, k: OnCard)
    requires
        one_name(k.folder),
        all_names(favmap::inside(k)),
    ensures
        favmap::located(roms, favmap::whole_path(k, roms)) == Some((k.folder, favmap::inside(k))),
{
    reveal_strlit("/");
    let slash = "/"@;
    assert(slash =~= seq!['/']);
    let inner = favmap::inside(k);
    let names = text::split(inner, '/');
    text::lemma_split_len(inner, '/');
    lines::lemma_split_pieces(inner, '/');
    lines::lemma_join_split(inner, '/');
    assert(solid(names[0]));
    assert(inner.len() > 0 && inner[0] != '/') by {
        if inner.len() == 0 {
            assert(names =~= seq![Seq::<char>::empty()]);
            assert(names[0].len() == 0);
        } else if inner[0] == '/' {
            let b = inner.skip(1);
            assert(Seq::<char>::empty().push('/') + b =~= inner);
            lines::lemma_split_at(Seq::empty(), b, '/');
            assert(names[0] == text::split(Seq::<char>::empty(), '/')[0]);
            assert(names[0].len() == 0);
        }
    }
    let s = lemma_pieces_below(roms, k.folder);
    let base = paths::joined(roms, k.folder);
    let p = favmap::whole_path(k, roms);
    assert(p =~= base.push('/') + inner);
    lines::lemma_split_at(base, inner, '/');
    let pieces = text::split(p, '/');
    let tail = seq![k.folder] + names;
    assert(pieces =~= s + tail);
    assert(paths::absolute(p) == paths::absolute(roms)) by {
        assert(p[0] == base[0]);
    }
    assert forall|i: int| 0 <= i < tail.len() implies solid(#[trigger] tail[i]) by {
        if i > 0 {
            assert(tail[i] == names[i - 1]);
            assert(solid(text::split(inner, '/')[i - 1]));
        }
    }
    lemma_counted_add(s, tail);
    let c = paths::components(p);
    let d = paths::components(roms);
    assert(c =~= d + tail);
    assert(d.is_prefix_of(c));
    let n = d.len() as int;
    let skipped = paths::counted(s).len() as int;
    assert(pieces.take(s.len() as int) =~= s);
    assert(pieces[s.len() as int] == tail[0]);
    assert(paths::counted(pieces.take(0)).len() == 0);
    lemma_piece_of(pieces, 0, s.len() as int);
    assert(paths::piece_of(pieces, skipped, 0) == s.len());
    assert(pieces[pieces.len() - 1] == tail[tail.len() - 1]);
    assert(solid(tail[tail.len() - 1]));
    let last = paths::last_piece(pieces, pieces.len() as int);
    assert(last == pieces.len() - 1);
    let rest = paths::rest(p, n);
    assert(pieces.subrange(s.len() as int, last + 1) =~= tail);
    assert(rest == text::join(tail, slash));
    assert forall|j: int, i: int| 0 <= j < tail.len() && 0 <= i < tail[j].len() implies #[trigger] tail[j][i]
        != '/' by {
        if j == 0 {
            if tail[j][i] == '/' {
                assert(k.folder.contains('/'));
            }
        } else {
            assert(tail[j] == names[j - 1]);
            assert(names[j - 1][i] != '/');
        }
    }
    lines::lemma_split_join(tail, '/');
    lemma_counted_add(Seq::empty(), tail);
    assert(Seq::<Seq<char>>::empty() + tail =~= tail);
    assert(paths::counted(Seq::<Seq<char>>::empty()) + tail =~= tail);
    lines::lemma_join_add(seq![k.folder], names, slash);
    assert(rest == k.folder + slash + inner);
    assert(rest[0] == k.folder[0]);
    assert(rest[0] != '/') by {
        assert(tail[0][0] != '/');
    }
    assert(paths::components(rest) == tail);
    assert(tail.skip(1) =~= names);
}

/// Where the `k`-th component from a piece on stands, and what comes before it.
proof fn lemma_piece_at(pieces: Seq<Seq<char>>, k: int, i: int)
    requires
        0 <= i <= pieces.len(),
        0 <= k,
    ensures
        ({
            let m = paths::piece_of(pieces, k, i);
            let before = paths::counted(pieces.take(i)).len();
            &&& i <= m <= pieces.len()
            &&& m < pieces.len() ==> paths::counts(pieces[m], m) && paths::counted(pieces.take(m)).len()
                == before + k
            &&& m == pieces.len() ==> paths::counted(pieces).len() <= before + k
        }),
    decreases pieces.len() - i,
{
    if i < pieces.len() {
        assert(pieces.take(i + 1).drop_last() =~= pieces.take(i));
        assert(pieces.take(i + 1).last() == pieces[i]);
        if paths::counts(pieces[i], i) {
            if k > 0 {
                lemma_piece_at(pieces, k - 1, i + 1);
            }
        } else {
            lemma_piece_at(pieces, k, i + 1);
        }
    } else {
        assert(pieces.take(i) =~= pieces);
    }
}

/// After the last component come no more.
proof fn lemma_last_piece(pieces: Seq<Seq<char>>, n: int)
    requires
        0 <= n <= pieces.len(),
    ensures
        ({
            let last = paths::last_piece(pieces, n);
            &&& -1 <= last < n
            &&& last >= 0 ==> paths::counts(pieces[last], last)
            &&& paths::counted(pieces.take(last + 1)) == paths::counted(pieces.take(n))
        }),
    decreases n,
{
    if n > 0 && !paths::counts(pieces[n - 1], n - 1) {
        lemma_last_piece(pieces, n - 1);
        assert(pieces.take(n).drop_last() =~= pieces.take(n - 1));
        assert(pieces.take(n).last() == pieces[n - 1]);
    }
}

/// The pieces from a component on have the components from it on.
proof fn lemma_counted_from(pieces: Seq<Seq<char>>, a: int, b: int)
    requires
        0 <= a < b <= pieces.len(),
        paths::counts(pieces[a], a),
    ensures
        paths::counted(pieces.subrange(a, b)) == paths::counted(pieces.take(b)).skip(
            paths::counted(pieces.take(a)).len() as int,
        ),
        paths::counted(pieces.take(a)).len() < paths::counted(pieces.take(b)).len(),
    decreases b,
{
    let from = paths::counted(pieces.take(a)).len() as int;
    let sub = pieces.subrange(a, b);
    let whole = pieces.take(b);
    assert(whole.drop_last() =~= pieces.take(b - 1));
    assert(whole.last() == pieces[b - 1] && sub.last() == pieces[b - 1]);
    if a < b - 1 {
        lemma_counted_from(pieces, a, b - 1);
        assert(sub.drop_last() =~= pieces.subrange(a, b - 1));
        let c = paths::counted(pieces.take(b - 1));
        if paths::counts(pieces[b - 1], b - 1) {
            assert(c.push(pieces[b - 1]).skip(from) =~= c.skip(from).push(pieces[b - 1]));
        }
    } else {
        reveal_with_fuel(paths::counted, 2);
        assert(sub.drop_last() =~= Seq::<Seq<char>>::empty());
        let c = paths::counted(pieces.take(a));
        assert(paths::counts(pieces[a], 0));
        assert(c.push(pieces[a]).skip(from) =~= Seq::<Seq<char>>::empty().push(pieces[a]));
    }
}

/// Pieces of a path whose first is a component are the pieces of a path that
/// begins at no root.
proof fn lemma_joined_pieces(p: Seq<char>, a: int, b: int)
    requires
        0 <= a < b <= text::split(p, '/').len(),
        text::split(p, '/')[a].len() > 0,
    ensures
        ({
            let sub = text::split(p, '/').subrange(a, b);
            &&& text::split(text::join(sub, "/"@), '/') == sub
            &&& !paths::absolute(text::join(sub, "/"@))
        }),
{
    reveal_strlit("/");
    assert("/"@ =~= seq!['/']);
    let pieces = text::split(p, '/');
    let sub = pieces.subrange(a, b);
    lines::lemma_split_pieces(p, '/');
    assert forall|k: int, i: int| 0 <= k < sub.len() && 0 <= i < sub[k].len() implies #[trigger] sub[k][i]
        != '/' by {
        assert(pieces[a + k][i] != '/');
    }
    lines::lemma_split_join(sub, '/');
    let j = text::join(sub, seq!['/']);
    let one = sub.take(1);
    if sub.len() > 1 {
        let more = sub.skip(1);
        assert(one + more =~= sub);
        lines::lemma_join_add(one, more, seq!['/']);
    } else {
        assert(one =~= sub);
    }
    assert(text::join(one, seq!['/']) =~= sub[0]);
    assert(j[0] == sub[0][0]);
}

/// A path from the root keeps its components without what comes after the last.
proof fn lemma_rooted_pieces(p: Seq<char>, last: int)
    requires
        paths::absolute(p),
        last == paths::last_piece(text::split(p, '/'), text::split(p, '/').len() as int),
    ensures
        paths::components(paths::rest(p, 0)) == paths::components(p),
{
    reveal_strlit("/");
    assert("/"@ =~= seq!['/']);
    let pieces = text::split(p, '/');
    let n = pieces.len() as int;
    lemma_last_piece(pieces, n);
    assert(pieces.take(n) =~= pieces);
    let nothing = Seq::<char>::empty();
    let b = p.skip(1);
    assert(nothing.push('/') + b =~= p);
    lines::lemma_split_at(nothing, b, '/');
    assert(text::split(nothing, '/') =~= seq![nothing]);
    assert(pieces[0] == nothing);
    if last < 0 {
        assert(paths::counted(pieces.take(0)) =~= Seq::<Seq<char>>::empty());
        lines::lemma_split_at(nothing, nothing, '/');
        assert(nothing.push('/') + nothing =~= "/"@);
        let two = text::split("/"@, '/');
        assert(two =~= seq![nothing, nothing]);
        reveal_with_fuel(paths::counted, 3);
        assert(two.drop_last() =~= seq![nothing]);
        assert(two.drop_last().drop_last() =~= Seq::<Seq<char>>::empty());
        assert(paths::counted(two) =~= Seq::<Seq<char>>::empty());
    } else {
        let sub = pieces.take(last + 1);
        assert(last > 0);
        lines::lemma_split_pieces(p, '/');
        assert forall|k: int, i: int| 0 <= k < sub.len() && 0 <= i < sub[k].len() implies
            #[trigger] sub[k][i] != '/' by {
            assert(pieces[k][i] != '/');
        }
        lines::lemma_split_join(sub, '/');
        let one = sub.take(1);
        let more = sub.skip(1);
        assert(one + more =~= sub);
        lines::lemma_join_add(one, more, seq!['/']);
        assert(text::join(one, seq!['/']) =~= nothing);
        assert(text::join(sub, seq!['/'])[0] == '/');
    }
}

/// What is left of a path after some of its components has the others.
proof fn lemma_components_left(p: Seq<char>, n: int)
    requires
        0 <= n <= paths::components(p).len(),
    ensures
        paths::components(paths::rest(p, n)) == paths::components(p).skip(n),
{
    let pieces = text::split(p, '/');
    let c = paths::counted(pieces);
    let skipped = if paths::absolute(p) {
        n - 1
    } else {
        n
    };
    let last = paths::last_piece(pieces, pieces.len() as int);
    lemma_last_piece(pieces, pieces.len() as int);
    assert(pieces.take(pieces.len() as int) =~= pieces);
    if paths::absolute(p) && n == 0 {
        lemma_rooted_pieces(p, last);
        assert(paths::components(p).skip(0) =~= paths::components(p));
    } else {
        assert(paths::components(p).skip(n) =~= c.skip(skipped));
        let first = paths::piece_of(pieces, skipped, 0);
        lemma_piece_at(pieces, skipped, 0);
        assert(pieces.take(0) =~= Seq::<Seq<char>>::empty());
        if first > last {
            // No component stands past the last, so none is left.
            if first < pieces.len() {
                lemma_counted_grows(pieces, last + 1, first);
            }
            assert(c.skip(skipped) =~= Seq::<Seq<char>>::empty());
            let nothing = Seq::<char>::empty();
            let one = text::split(nothing, '/');
            assert(one =~= seq![Seq::<char>::empty()]);
            assert(one.drop_last() =~= Seq::<Seq<char>>::empty());
            assert(paths::counted(one) =~= Seq::<Seq<char>>::empty());
        } else {
            lemma_joined_pieces(p, first, last + 1);
            lemma_counted_from(pieces, first, last + 1);
        }
    }
}

/// What is left of a path below a directory has the components that come after the
/// directory's; nothing is left of a path outside it.
pub proof fn law_what_is_left_below_a_directory(p: Seq<char>, dir: Seq<char>)
    ensures
        paths::below(p, dir) is Some <==> paths::components(dir).is_prefix_of(paths::components(p)),
        paths::below(p, dir) matches Some(r) ==> paths::components(dir) + paths::components(r)
            == paths::components(p),
{
    if paths::under(p, dir) {
        let n = paths::components(dir).len() as int;
        lemma_components_left(p, n);
        assert(paths::components(dir) + paths::components(p).skip(n) =~= paths::components(p));
    }
}

/// A path leads to a game where it has, below the ROMs folder, a system folder and
/// at least one more name; it leads to none where it is outside the ROMs folder,
/// or is that folder or a system folder itself.
pub proof fn law_only_what_is_in_a_system_folder_is_located(roms: Seq<char>, p: Seq<char>)
    ensures
        ({
            let c = paths::components(p);
            let d = paths::components(roms);
            let n = d.len() as int;
            &&& !paths::under(p, roms) ==> favmap::located(roms, p) is None
            &&& paths::under(p, roms) && c.len() < n + 2 ==> favmap::located(roms, p) is None
            &&& paths::under(p, roms) && c.len() >= n + 2 ==> favmap::located(roms, p) == Some(
                (c[n], text::join(c.skip(n + 1), "/"@)),
            )
        }),
{
    let c = paths::components(p);
    let n = paths::components(roms).len() as int;
    if paths::under(p, roms) {
        lemma_components_left(p, n);
        let parts = c.skip(n);
        if parts.len() >= 2 {
            assert(parts.skip(1) =~= c.skip(n + 1));
        }
    }
}

/// A system folder is no game in it.
pub proof fn law_a_system_folder_is_no_game(roms: Seq<char>, folder: Seq<char>)
    requires
        one_name(folder),
    ensures
        favmap::located(roms, paths::joined(roms, folder)) is None,
{
    let s = lemma_pieces_below(roms, folder);
    let p = paths::joined(roms, folder);
    let c = paths::components(p);
    let d = paths::components(roms);
    assert(s.push(folder).drop_last() =~= s);
    assert(c =~= d.push(folder));
    assert(d.is_prefix_of(c));
    lemma_components_left(p, d.len() as int);
}

} // verus!
