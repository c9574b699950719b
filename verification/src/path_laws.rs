//! How paths are put together, taken apart and ordered.

use vstd::prelude::*;
use crate::lines;
use crate::order;
use crate::paths;
use crate::text;

verus! {

/// One more piece is one more component, where it counts.
proof fn lemma_one_more_piece(pieces: Seq<Seq<char>>, piece: Seq<char>)
    ensures
        paths::counted(pieces.push(piece)) == if paths::counts(piece, pieces.len() as int) {
            paths::counted(pieces).push(piece)
        } else {
            paths::counted(pieces)
        },
{
    assert(pieces.push(piece).drop_last() =~= pieces);
}

/// The components of a path, a slash and one more piece.
proof fn lemma_below(base: Seq<char>, n: Seq<char>)
    requires
        base.len() > 0,
        !n.contains('/'),
    ensures
        paths::components(base + "/"@ + n) == if n.len() > 0 && n != "."@ {
            paths::components(base).push(n)
        } else {
            paths::components(base)
        },
{
    reveal_strlit("/");
    let pieces = text::split(base, '/');
    text::lemma_split_len(base, '/');
    assert(base + "/"@ + n =~= base.push('/') + n);
    lines::lemma_split_at(base, n, '/');
    assert forall|i: int| 0 <= i < n.len() implies n[i] != '/' by {
        assert(n.contains(n[i]));
    }
    lines::lemma_split_one(n, '/');
    assert(pieces + seq![n] =~= pieces.push(n));
    lemma_one_more_piece(pieces, n);
    assert((base + "/"@ + n)[0] == base[0]);
    assert(paths::components(base + "/"@ + n) =~= if n.len() > 0 && n != "."@ {
        paths::components(base).push(n)
    } else {
        paths::components(base)
    });
}

/// A slash at the end of a path, and a `.` after it, change no component.
pub proof fn law_a_slash_at_the_end_does_not_count(p: Seq<char>)
    requires
        p.len() > 0,
    ensures
        paths::components(p + "/"@) == paths::components(p),
        paths::components(p + "/"@ + "."@) == paths::components(p),
{
    reveal_strlit("/");
    reveal_strlit(".");
    assert(p + "/"@ + Seq::<char>::empty() =~= p + "/"@);
    lemma_below(p, Seq::empty());
    lemma_below(p, "."@);
}

/// A name joined to a path is one more component: it is the name of what the path
/// then leads to, in what the path led to before.
pub proof fn law_a_joined_name_is_one_more_component(base: Seq<char>, n: Seq<char>)
    requires
        n.len() > 0,
        !n.contains('/'),
        n != "."@,
    ensures
        paths::components(paths::joined(base, n)) == paths::components(base).push(n),
        n != ".."@ ==> paths::name(paths::joined(base, n)) == Some(n),
        paths::name(base) is Some ==> paths::parent_name(paths::joined(base, n)) == paths::name(base),
        paths::under(paths::joined(base, n), base),
{
    reveal_strlit("/");
    assert(n[0] != '/') by {
        assert(n.contains(n[0]));
    }
    assert("/"@.contains('/')) by {
        assert("/"@[0] == '/');
    }
    let all = paths::joined(base, n);
    if base.len() == 0 {
        assert(all =~= n);
        assert forall|i: int| 0 <= i < n.len() implies n[i] != '/' by {
            assert(n.contains(n[i]));
        }
        lines::lemma_split_one(n, '/');
        let none = Seq::<Seq<char>>::empty();
        assert(seq![n] =~= none.push(n));
        lemma_one_more_piece(none, n);
        assert(text::split(base, '/') =~= none.push(Seq::empty()));
        lemma_one_more_piece(none, Seq::empty());
        assert(paths::components(base) =~= none);
        assert(paths::components(all) =~= none.push(n));
    } else if base.last() == '/' {
        let front = base.drop_last();
        assert(base =~= front + "/"@);
        assert(all =~= front + "/"@ + n);
        if front.len() == 0 {
            // What is joined to the root.
            assert(all =~= Seq::<char>::empty().push('/') + n);
            lines::lemma_split_at(Seq::empty(), n, '/');
            assert forall|i: int| 0 <= i < n.len() implies n[i] != '/' by {
                assert(n.contains(n[i]));
            }
            lines::lemma_split_one(n, '/');
            let none = Seq::<Seq<char>>::empty();
            let first = seq![Seq::<char>::empty()];
            assert(text::split(Seq::<char>::empty(), '/') =~= first);
            assert(first =~= none.push(Seq::empty()));
            lemma_one_more_piece(none, Seq::empty());
            assert(first + seq![n] =~= first.push(n));
            lemma_one_more_piece(first, n);
            assert(base.drop_last() =~= Seq::<char>::empty());
            assert(text::split(base, '/') =~= first.push(Seq::empty()));
            lemma_one_more_piece(first, Seq::empty());
            assert(paths::components(base) =~= seq!["/"@]);
            assert(paths::components(all) =~= seq!["/"@, n]);
        } else {
            law_a_slash_at_the_end_does_not_count(front);
            lemma_below(front, n);
        }
    } else {
        lemma_below(base, n);
    }
    assert(paths::components(base).is_prefix_of(paths::components(base).push(n)));
}

/// Lists of components are ordered by what comes after what they have in common.
proof fn lemma_past_what_is_common(a: Seq<Seq<char>>, b: Seq<Seq<char>>, k: int)
    requires
        0 <= k <= a.len(),
        k <= b.len(),
        a.take(k) == b.take(k),
    ensures
        paths::components_less(a, b) == paths::components_less(a.skip(k), b.skip(k)),
    decreases k,
{
    if k == 0 {
        assert(a.skip(0) =~= a && b.skip(0) =~= b);
    } else {
        assert(a[0] == a.take(k)[0] && b[0] == b.take(k)[0]);
        let x = a.skip(1);
        let y = b.skip(1);
        assert(x.take(k - 1) =~= a.take(k).skip(1));
        assert(y.take(k - 1) =~= b.take(k).skip(1));
        lemma_past_what_is_common(x, y, k - 1);
        assert(x.skip(k - 1) =~= a.skip(k));
        assert(y.skip(k - 1) =~= b.skip(k));
    }
}

/// Paths are ordered where they part. One that ends there comes first; two names
/// come as texts do; before a name come the root, a `.` and a `..`, in that order.
pub proof fn law_paths_are_ordered_where_they_part(p: Seq<char>, q: Seq<char>, k: int)
    requires
        0 <= k <= paths::components(p).len(),
        k < paths::components(q).len(),
        paths::components(p).take(k) == paths::components(q).take(k),
    ensures
        ({
            let a = paths::components(p);
            let b = paths::components(q);
            &&& k == a.len() ==> paths::less(p, q) && !paths::less(q, p)
            &&& k < a.len() && a[k] != b[k] && paths::is_name(a[k]) && paths::is_name(b[k]) ==> (paths::less(p, q)
                <==> order::less(a[k], b[k]))
            &&& k < a.len() && !paths::is_name(a[k]) && paths::is_name(b[k]) ==> paths::less(p, q) && !paths::less(
                q,
                p,
            )
            &&& k < a.len() && a[k] == "/"@ && (b[k] == "."@ || b[k] == ".."@) ==> paths::less(p, q)
                && !paths::less(q, p)
            &&& k < a.len() && a[k] == "."@ && b[k] == ".."@ ==> paths::less(p, q) && !paths::less(q, p)
        }),
{
    let a = paths::components(p);
    let b = paths::components(q);
    lemma_past_what_is_common(a, b, k);
    lemma_past_what_is_common(b, a, k);
    reveal_strlit("/");
    reveal_strlit(".");
    reveal_strlit("..");
    let x = a.skip(k);
    let y = b.skip(k);
    assert(y[0] == b[k]);
    if k < a.len() {
        assert(x[0] == a[k]);
        assert("/"@.len() == 1 && "."@.len() == 1 && ".."@.len() == 2);
        assert("/"@[0] == '/' && "."@[0] == '.');
    }
}

} // verus!
