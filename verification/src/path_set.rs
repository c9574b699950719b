//! A set of paths, each once, in the order of paths.

use vstd::prelude::*;
use crate::order;
use crate::paths;
use crate::text;

verus! {

proof fn lemma_component_order(a: Seq<char>, b: Seq<char>)
    ensures
        !paths::component_less(a, a),
        a == b || paths::component_less(a, b) || paths::component_less(b, a),
{
    order::lemma_irreflexive(a);
    order::lemma_total(a, b);
}

proof fn lemma_component_transitive(a: Seq<char>, b: Seq<char>, c: Seq<char>)
    requires
        paths::component_less(a, b),
        paths::component_less(b, c),
    ensures
        paths::component_less(a, c),
{
    if paths::rank(a) == 3 && paths::rank(b) == 3 && paths::rank(c) == 3 {
        order::lemma_transitive(a, b, c);
    }
}

/// No list of components comes before itself.
pub proof fn lemma_irreflexive(a: Seq<Seq<char>>)
    ensures
        !paths::components_less(a, a),
    decreases a.len(),
{
    if a.len() > 0 {
        lemma_irreflexive(a.skip(1));
    }
}

/// The order of components is transitive.
pub proof fn lemma_transitive(a: Seq<Seq<char>>, b: Seq<Seq<char>>, c: Seq<Seq<char>>)
    requires
        paths::components_less(a, b),
        paths::components_less(b, c),
    ensures
        paths::components_less(a, c),
    decreases a.len(),
{
    if a.len() > 0 {
        if a[0] == b[0] && b[0] == c[0] {
            lemma_transitive(a.skip(1), b.skip(1), c.skip(1));
        } else if a[0] != b[0] && b[0] != c[0] {
            lemma_component_transitive(a[0], b[0], c[0]);
            lemma_component_order(a[0], c[0]);
        }
    }
}

/// Of two different lists of components one comes before the other.
pub proof fn lemma_total(a: Seq<Seq<char>>, b: Seq<Seq<char>>)
    ensures
        a == b || paths::components_less(a, b) || paths::components_less(b, a),
    decreases a.len(),
{
    if a.len() > 0 && b.len() > 0 {
        lemma_component_order(a[0], b[0]);
        if a[0] == b[0] {
            lemma_total(a.skip(1), b.skip(1));
            if a.skip(1) == b.skip(1) {
                assert(a =~= seq![a[0]] + a.skip(1));
                assert(b =~= seq![b[0]] + b.skip(1));
            }
        }
    } else if a.len() == 0 && b.len() == 0 {
        assert(a =~= b);
    }
}

/// Every path comes before the ones after it.
pub open spec fn ascending(s: Seq<Seq<char>>) -> bool {
    forall|i: int, j: int| 0 <= i < j < s.len() ==> paths::less(#[trigger] s[i], #[trigger] s[j])
}

/// Whether a list has a path, whatever way it is written.
pub open spec fn holds_path(s: Seq<Seq<char>>, p: Seq<char>) -> bool {
    exists|i: int| 0 <= i < s.len() && paths::components(#[trigger] s[i]) == paths::components(p)
}

/// A set of paths. Two ways to write one path are the same path, and the first
/// that was put in is kept.
#[derive(Debug)]
pub struct PathSet {
    items: Vec<String>,
}

impl PathSet {
    /// The paths, in their order.
    pub closed spec fn list(self) -> Seq<Seq<char>> {
        text::texts(self.items@)
    }

    /// The paths are in their order, each once.
    pub open spec fn wf(self) -> bool {
        ascending(self.list())
    }

    /// The empty set.
    pub fn new() -> (r: PathSet)
        ensures
            r.wf(),
            r.list() == Seq::<Seq<char>>::empty(),
    {
        let r = PathSet { items: Vec::new() };
        assert(r.list() =~= Seq::<Seq<char>>::empty());
        r
    }

    /// How many paths there are.
    pub fn len(&self) -> (r: usize)
        ensures
            r == self.list().len(),
    {
        self.items.len()
    }

    /// Whether there is none.
    pub fn is_empty(&self) -> (r: bool)
        ensures
            r == (self.list().len() == 0),
    {
        self.items.len() == 0
    }

    /// The paths, in their order.
    pub fn items(&self) -> (r: &Vec<String>)
        ensures
            text::texts(r@) == self.list(),
    {
        &self.items
    }

    /// Whether a path is in the set.
    pub fn contains(&self, p: &str) -> (r: bool)
        ensures
            r == holds_path(self.list(), p@),
    {
        let mut i: usize = 0;
        while i < self.items.len()
            invariant
                i <= self.items@.len(),
                forall|j: int|
                    0 <= j < i ==> paths::components(#[trigger] self.list()[j]) != paths::components(p@),
            decreases self.items@.len() - i,
        {
            assert(self.list()[i as int] == self.items@[i as int]@);
            if paths::same_path(&self.items[i], p) {
                return true;
            }
            i += 1;
        }
        false
    }

    /// Puts a path in, unless it is there already. Says whether it was put in.
    pub fn insert(&mut self, p: &str) -> (r: bool)
        requires
            old(self).wf(),
        ensures
            final(self).wf(),
            r == !holds_path(old(self).list(), p@),
            !r ==> final(self).list() == old(self).list(),
            r ==> final(self).list().to_set() == old(self).list().to_set().insert(p@),
    {
        let ghost before = self.list();
        let mut i: usize = 0;
        while i < self.items.len() && paths::is_less(&self.items[i], p)
            invariant
                i <= self.items@.len(),
                before == self.list(),
                forall|j: int| 0 <= j < i ==> paths::less(#[trigger] before[j], p@),
            decreases self.items@.len() - i,
        {
            assert(before[i as int] == self.items@[i as int]@);
            i += 1;
        }
        proof {
            assert forall|j: int| 0 <= j < i implies paths::components(#[trigger] before[j])
                != paths::components(p@) by {
                lemma_irreflexive(paths::components(p@));
            }
        }
        if i < self.items.len() && paths::same_path(&self.items[i], p) {
            assert(before[i as int] == self.items@[i as int]@);
            assert(holds_path(before, p@));
            return false;
        }
        proof {
            assert forall|j: int| i <= j < before.len() implies paths::less(p@, #[trigger] before[j]) by {
                assert(before[i as int] == self.items@[i as int]@);
                lemma_total(paths::components(before[i as int]), paths::components(p@));
                if j > i {
                    assert(paths::less(before[i as int], before[j]));
                    lemma_transitive(
                        paths::components(p@),
                        paths::components(before[i as int]),
                        paths::components(before[j]),
                    );
                }
            }
            assert forall|j: int| 0 <= j < before.len() implies paths::components(#[trigger] before[j])
                != paths::components(p@) by {
                lemma_irreflexive(paths::components(p@));
            }
        }
        self.items.insert(i, text::owned(p));
        proof {
            let after = self.list();
            assert(after =~= before.insert(i as int, p@));
            assert(after.to_set() =~= before.to_set().insert(p@)) by {
                assert forall|x: Seq<char>| after.contains(x) == (before.contains(x) || x == p@) by {
                    if after.contains(x) {
                        let j = after.index_of(x);
                        if j < i {
                            assert(before[j] == x);
                        } else if j > i {
                            assert(before[j - 1] == x);
                        }
                    }
                    if before.contains(x) {
                        let j = before.index_of(x);
                        if j < i {
                            assert(after[j] == x);
                        } else {
                            assert(after[j + 1] == x);
                        }
                    }
                    if x == p@ {
                        assert(after[i as int] == x);
                    }
                }
            }
            assert forall|a: int, b: int| 0 <= a < b < after.len() implies paths::less(
                #[trigger] after[a],
                #[trigger] after[b],
            ) by {
                if b < i {
                    assert(paths::less(before[a], before[b]));
                } else if b == i {
                    assert(paths::less(before[a], p@));
                } else if a < i {
                    assert(paths::less(before[a], before[b - 1]));
                } else if a == i {
                    assert(paths::less(p@, before[b - 1]));
                } else {
                    assert(paths::less(before[a - 1], before[b - 1]));
                }
            }
        }
        true
    }

    /// Takes a path out. Says whether it was there.
    pub fn remove(&mut self, p: &str) -> (r: bool)
        requires
            old(self).wf(),
        ensures
            final(self).wf(),
            r == holds_path(old(self).list(), p@),
            !holds_path(final(self).list(), p@),
            forall|q: Seq<char>|
                paths::components(q) != paths::components(p@) ==> #[trigger] final(self).list().contains(q)
                    == old(self).list().contains(q),
    {
        let ghost before = self.list();
        let mut i: usize = 0;
        while i < self.items.len()
            invariant
                i <= self.items@.len(),
                before == self.list(),
                before == old(self).list(),
                forall|j: int|
                    0 <= j < i ==> paths::components(#[trigger] before[j]) != paths::components(p@),
                self.wf(),
            decreases self.items@.len() - i,
        {
            assert(before[i as int] == self.items@[i as int]@);
            if paths::same_path(&self.items[i], p) {
                let _ = self.items.remove(i);
                proof {
                    let after = self.list();
                    assert(after =~= before.remove(i as int));
                    assert(holds_path(before, p@));
                    assert forall|a: int, b: int| 0 <= a < b < after.len() implies paths::less(
                        #[trigger] after[a],
                        #[trigger] after[b],
                    ) by {
                        let x = if a < i {
                            a
                        } else {
                            a + 1
                        };
                        let y = if b < i {
                            b
                        } else {
                            b + 1
                        };
                        assert(paths::less(before[x], before[y]));
                    }
                    assert forall|j: int| 0 <= j < after.len() implies paths::components(
                        #[trigger] after[j],
                    ) != paths::components(p@) by {
                        if j >= i {
                            assert(paths::less(before[i as int], before[j + 1]));
                            lemma_irreflexive(paths::components(p@));
                        }
                    }
                    assert forall|q: Seq<char>|
                        paths::components(q) != paths::components(p@) implies #[trigger] after.contains(
                        q,
                    ) == before.contains(q) by {
                        if before.contains(q) {
                            let j = before.index_of(q);
                            if j < i {
                                assert(after[j] == q);
                            } else if j > i {
                                assert(after[j - 1] == q);
                            }
                        }
                        if after.contains(q) {
                            let j = after.index_of(q);
                            if j < i {
                                assert(before[j] == q);
                            } else {
                                assert(before[j + 1] == q);
                            }
                        }
                    }
                }
                return true;
            }
            i += 1;
        }
        false
    }
}

} // verus!
