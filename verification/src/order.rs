//! The order of texts, and lists of texts kept in it.

use vstd::prelude::*;
use crate::text;

verus! {

/// Whether one text comes before another: by the first character in which
/// they differ, and a text before every longer one that begins with it.
pub open spec fn less(a: Seq<char>, b: Seq<char>) -> bool
    decreases a.len(),
{
    if b.len() == 0 {
        false
    } else if a.len() == 0 {
        true
    } else if a[0] != b[0] {
        (a[0] as int) < (b[0] as int)
    } else {
        less(a.skip(1), b.skip(1))
    }
}

/// Every text comes before the ones after it, so none is there twice.
pub open spec fn ascending(s: Seq<Seq<char>>) -> bool {
    forall|i: int, j: int| 0 <= i < j < s.len() ==> less(#[trigger] s[i], #[trigger] s[j])
}

/// Whether two texts part at a place: they are alike before it, and there the first
/// ends or has the smaller character.
pub open spec fn parts_at(a: Seq<char>, b: Seq<char>, i: int) -> bool {
    &&& 0 <= i <= a.len() && i < b.len()
    &&& forall|j: int| 0 <= j < i ==> #[trigger] a[j] == b[j]
    &&& i == a.len() || (a[i] as int) < (b[i] as int)
}

/// A text comes before another just where the two part at some place, the first
/// ending there or having the smaller character.
pub proof fn law_texts_are_ordered_where_they_part(a: Seq<char>, b: Seq<char>)
    ensures
        less(a, b) <==> exists|i: int| #[trigger] parts_at(a, b, i),
    decreases a.len(),
{
    if b.len() > 0 && a.len() > 0 && a[0] == b[0] {
        let x = a.skip(1);
        let y = b.skip(1);
        law_texts_are_ordered_where_they_part(x, y);
        if less(a, b) {
            let i = choose|i: int| #[trigger] parts_at(x, y, i);
            assert forall|j: int| 0 <= j < i + 1 implies #[trigger] a[j] == b[j] by {
                if j > 0 {
                    assert(x[j - 1] == y[j - 1]);
                }
            }
            assert(parts_at(a, b, i + 1));
        }
        if exists|i: int| #[trigger] parts_at(a, b, i) {
            let i = choose|i: int| #[trigger] parts_at(a, b, i);
            assert forall|j: int| 0 <= j < i - 1 implies #[trigger] x[j] == y[j] by {
                assert(a[j + 1] == b[j + 1]);
            }
            assert(parts_at(x, y, i - 1));
        }
    } else if b.len() > 0 {
        if less(a, b) {
            assert(parts_at(a, b, 0));
        }
        assert forall|i: int| #[trigger] parts_at(a, b, i) implies less(a, b) by {
            if i > 0 {
                assert(a[0] == b[0]);
            }
        }
    }
}

/// No text comes before itself.
pub proof fn lemma_irreflexive(a: Seq<char>)
    ensures
        !less(a, a),
    decreases a.len(),
{
    if a.len() > 0 {
        lemma_irreflexive(a.skip(1));
    }
}

/// The order is transitive.
pub proof fn lemma_transitive(a: Seq<char>, b: Seq<char>, c: Seq<char>)
    requires
        less(a, b),
        less(b, c),
    ensures
        less(a, c),
    decreases a.len(),
{
    if a.len() > 0 && a[0] == b[0] && b[0] == c[0] {
        lemma_transitive(a.skip(1), b.skip(1), c.skip(1));
    }
}

/// Of two different texts one comes before the other.
pub proof fn lemma_total(a: Seq<char>, b: Seq<char>)
    ensures
        a == b || less(a, b) || less(b, a),
    decreases a.len(),
{
    if a.len() > 0 && b.len() > 0 && a[0] == b[0] {
        lemma_total(a.skip(1), b.skip(1));
        if a.skip(1) == b.skip(1) {
            assert(a =~= seq![a[0]] + a.skip(1));
            assert(b =~= seq![b[0]] + b.skip(1));
        }
    } else if a.len() == 0 && b.len() == 0 {
        assert(a =~= b);
    }
}

/// Whether one text comes before another.
pub fn is_less(a: &str, b: &str) -> (r: bool)
    ensures
        r == less(a@, b@),
{
    let x = text::chars_of(a);
    let y = text::chars_of(b);
    let mut i: usize = 0;
    assert(x@.skip(0) =~= x@);
    assert(y@.skip(0) =~= y@);
    loop
        invariant
            i <= x@.len(),
            i <= y@.len(),
            x@ == a@,
            y@ == b@,
            less(a@, b@) == less(x@.skip(i as int), y@.skip(i as int)),
        decreases x@.len() - i,
    {
        let ghost ra = x@.skip(i as int);
        let ghost rb = y@.skip(i as int);
        if i >= y.len() {
            return false;
        }
        if i >= x.len() {
            return true;
        }
        assert(ra[0] == x@[i as int] && rb[0] == y@[i as int]);
        if x[i] != y[i] {
            return x[i] < y[i];
        }
        assert(ra.skip(1) =~= x@.skip(i + 1));
        assert(rb.skip(1) =~= y@.skip(i + 1));
        i += 1;
    }
}

/// Puts a text into an ascending list, unless it is there already.
///
/// Says whether it was put in.
pub fn insert(v: &mut Vec<String>, s: &str) -> (r: bool)
    requires
        ascending(text::texts(old(v)@)),
    ensures
        ascending(text::texts(final(v)@)),
        text::texts(final(v)@).to_set() == text::texts(old(v)@).to_set().insert(s@),
        r == !text::texts(old(v)@).contains(s@),
        !r ==> final(v)@ == old(v)@,
{
    let ghost before = text::texts(v@);
    let mut i: usize = 0;
    while i < v.len() && is_less(&v[i], s)
        invariant
            i <= v@.len(),
            before == text::texts(v@),
            forall|j: int| 0 <= j < i ==> less(#[trigger] before[j], s@),
        decreases v@.len() - i,
    {
        assert(before[i as int] == v@[i as int]@);
        i += 1;
    }
    proof {
        assert forall|j: int| 0 <= j < i implies #[trigger] before[j] != s@ by {
            lemma_irreflexive(s@);
        }
    }
    if i < v.len() && text::same(&v[i], s) {
        assert(before[i as int] == s@);
        assert(before.contains(s@));
        assert(before.to_set().insert(s@) =~= before.to_set());
        return false;
    }
    proof {
        assert forall|j: int| i <= j < before.len() implies less(s@, #[trigger] before[j]) by {
            assert(before[i as int] == v@[i as int]@);
            lemma_total(before[i as int], s@);
            if j > i {
                lemma_transitive(s@, before[i as int], before[j]);
            }
        }
        assert forall|j: int| 0 <= j < before.len() implies #[trigger] before[j] != s@ by {
            lemma_irreflexive(s@);
        }
    }
    v.insert(i, text::owned(s));
    proof {
        let after = text::texts(v@);
        assert(after =~= before.insert(i as int, s@));
        assert(after.to_set() =~= before.to_set().insert(s@)) by {
            assert forall|x: Seq<char>| after.contains(x) == (before.contains(x) || x == s@) by {
                if after.contains(x) {
                    let j = after.index_of(x);
                    if j < i {
                        assert(before[j] == x);
                    } else if j > i {
                        assert(before[j - 1] == x);
                    }
                }
                if before.contains(x) {
                    let j = before.index_of(x);
                    if j < i {
                        assert(after[j] == x);
                    } else {
                        assert(after[j + 1] == x);
                    }
                }
                if x == s@ {
                    assert(after[i as int] == x);
                }
            }
        }
        assert forall|a: int, b: int| 0 <= a < b < after.len() implies less(
            #[trigger] after[a],
            #[trigger] after[b],
        ) by {
            if b < i {
                assert(less(before[a], before[b]));
            } else if b == i {
                assert(less(before[a], s@));
            } else if a < i {
                assert(less(before[a], before[b - 1]));
            } else if a == i {
                assert(less(s@, before[b - 1]));
            } else {
                assert(less(before[a - 1], before[b - 1]));
            }
        }
    }
    true
}

/// A list in order with one more text in its place, unless it is there already.
pub open spec fn put(s: Seq<Seq<char>>, x: Seq<char>) -> Seq<Seq<char>>
    decreases s.len(),
{
    if s.len() == 0 {
        seq![x]
    } else if s.last() == x {
        s
    } else if less(s.last(), x) {
        s.push(x)
    } else {
        put(s.drop_last(), x).push(s.last())
    }
}

/// Some texts in order, each once.
pub open spec fn sorted(s: Seq<Seq<char>>) -> Seq<Seq<char>>
    decreases s.len(),
{
    if s.len() == 0 {
        Seq::empty()
    } else {
        put(sorted(s.drop_last()), s.last())
    }
}

/// A list in order stays in order.
pub proof fn lemma_put(s: Seq<Seq<char>>, x: Seq<char>)
    requires
        ascending(s),
    ensures
        ascending(put(s, x)),
        forall|t: Seq<char>| #[trigger] put(s, x).contains(t) == (s.contains(t) || t == x),
    decreases s.len(),
{
    let r = put(s, x);
    if s.len() == 0 {
        assert(r[0] == x);
    } else if s.last() == x {
    } else if less(s.last(), x) {
        assert forall|i: int, j: int| 0 <= i < j < r.len() implies less(#[trigger] r[i], #[trigger] r[j]) by {
            if j == s.len() && i < s.len() - 1 {
                assert(less(s[i], s[s.len() - 1]));
                lemma_transitive(s[i], s.last(), x);
            } else if j < s.len() {
                assert(less(s[i], s[j]));
            }
        }
        assert forall|t: Seq<char>| #[trigger] r.contains(t) == (s.contains(t) || t == x) by {
            if s.contains(t) {
                let k = choose|k: int| 0 <= k < s.len() && s[k] == t;
                assert(r[k] == t);
            }
            assert(r[s.len() as int] == x);
        }
    } else {
        let front = s.drop_last();
        lemma_total(s.last(), x);
        assert forall|i: int, j: int| 0 <= i < j < front.len() implies less(
            #[trigger] front[i],
            #[trigger] front[j],
        ) by {
            assert(less(s[i], s[j]));
        }
        lemma_put(front, x);
        let p = put(front, x);
        assert forall|i: int, j: int| 0 <= i < j < r.len() implies less(#[trigger] r[i], #[trigger] r[j]) by {
            if j == p.len() {
                assert(p.contains(p[i]));
                if p[i] != x {
                    let k = choose|k: int| 0 <= k < front.len() && front[k] == p[i];
                    assert(less(s[k], s[s.len() - 1]));
                }
            } else {
                assert(less(p[i], p[j]));
            }
        }
        assert forall|t: Seq<char>| #[trigger] r.contains(t) == (s.contains(t) || t == x) by {
            if r.contains(t) {
                let k = choose|k: int| 0 <= k < r.len() && r[k] == t;
                if k < p.len() {
                    assert(p.contains(t));
                    if front.contains(t) {
                        let m = choose|m: int| 0 <= m < front.len() && front[m] == t;
                        assert(s[m] == t);
                    }
                } else {
                    assert(s[s.len() - 1] == t);
                }
            }
            if s.contains(t) || t == x {
                if t == s.last() {
                    assert(r[p.len() as int] == t);
                } else {
                    if s.contains(t) {
                        let m = choose|m: int| 0 <= m < s.len() && s[m] == t;
                        assert(front[m] == t);
                    }
                    assert(p.contains(t));
                    let k = choose|k: int| 0 <= k < p.len() && p[k] == t;
                    assert(r[k] == t);
                }
            }
        }
    }
}

/// Texts put in order are in order, and are the same texts.
pub proof fn lemma_sorted(s: Seq<Seq<char>>)
    ensures
        ascending(sorted(s)),
        sorted(s).to_set() == s.to_set(),
    decreases s.len(),
{
    if s.len() > 0 {
        let front = s.drop_last();
        lemma_sorted(front);
        lemma_put(sorted(front), s.last());
        assert forall|t: Seq<char>| sorted(s).to_set().contains(t) == s.to_set().contains(t) by {
            assert(sorted(s).contains(t) == (sorted(front).contains(t) || t == s.last()));
            assert(sorted(front).to_set().contains(t) == front.to_set().contains(t));
            if s.contains(t) {
                let k = choose|k: int| 0 <= k < s.len() && s[k] == t;
                if k < front.len() {
                    assert(front[k] == t);
                }
            }
            if front.contains(t) {
                let k = choose|k: int| 0 <= k < front.len() && front[k] == t;
                assert(s[k] == t);
            }
            assert(s[s.len() - 1] == s.last());
        }
        assert(sorted(s).to_set() =~= s.to_set());
    } else {
        assert(sorted(s).to_set() =~= s.to_set());
    }
}

/// Texts in order make one list only.
pub proof fn lemma_ascending_unique(a: Seq<Seq<char>>, b: Seq<Seq<char>>)
    requires
        ascending(a),
        ascending(b),
        a.to_set() == b.to_set(),
    ensures
        a == b,
    decreases a.len(),
{
    if a.len() == 0 {
        if b.len() > 0 {
            assert(b.to_set().contains(b[0]));
            assert(a.contains(b[0]));
        }
        assert(a =~= b);
    } else {
        assert(a.to_set().contains(a[0]));
        assert(b.contains(a[0]));
        let x = a.last();
        let y = b.last();
        assert(a.to_set().contains(x) && b.to_set().contains(y));
        assert(b.contains(x) && a.contains(y));
        let i = choose|i: int| 0 <= i < b.len() && b[i] == x;
        let j = choose|j: int| 0 <= j < a.len() && a[j] == y;
        if x != y {
            assert(less(b[i], b[b.len() - 1]));
            assert(less(a[j], a[a.len() - 1]));
            lemma_transitive(x, y, x);
            lemma_irreflexive(x);
        }
        let fa = a.drop_last();
        let fb = b.drop_last();
        assert forall|t: Seq<char>| fa.to_set().contains(t) == fb.to_set().contains(t) by {
            if fa.contains(t) {
                let k = choose|k: int| 0 <= k < fa.len() && fa[k] == t;
                assert(a[k] == t);
                assert(less(a[k], a[a.len() - 1]));
                assert(a.to_set().contains(t));
                assert(b.contains(t));
                let m = choose|m: int| 0 <= m < b.len() && b[m] == t;
                if m == b.len() - 1 {
                    lemma_irreflexive(t);
                }
                assert(fb[m] == t);
            }
            if fb.contains(t) {
                let k = choose|k: int| 0 <= k < fb.len() && fb[k] == t;
                assert(b[k] == t);
                assert(less(b[k], b[b.len() - 1]));
                assert(b.to_set().contains(t));
                assert(a.contains(t));
                let m = choose|m: int| 0 <= m < a.len() && a[m] == t;
                if m == a.len() - 1 {
                    lemma_irreflexive(t);
                }
                assert(fa[m] == t);
            }
        }
        assert(fa.to_set() =~= fb.to_set());
        lemma_ascending_unique(fa, fb);
        assert(a =~= fa.push(x));
        assert(b =~= fb.push(y));
    }
}

} // verus!
