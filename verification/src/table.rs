//! A map with keys that are text, or made of it, as a list of pairs.

use vstd::prelude::*;
use crate::text;

verus! {

/// Something that values can be kept under.
pub trait Key: Sized {
    /// What the key is, as a value.
    type K;

    /// What the key is, as a value.
    spec fn of(&self) -> Self::K;

    /// Whether two keys are the same.
    fn same(&self, other: &Self) -> (r: bool)
        ensures
            r == (self.of() == other.of()),
    ;
}

impl Key for String {
    type K = Seq<char>;

    open spec fn of(&self) -> Seq<char> {
        self@
    }

    fn same(&self, other: &String) -> (r: bool) {
        text::same(self, other)
    }
}

/// What a list of pairs maps each key to: the last value given for it.
pub open spec fn mapped<K: Key, V>(s: Seq<(K, V)>) -> Map<K::K, V>
    decreases s.len(),
{
    if s.len() == 0 {
        Map::empty()
    } else {
        mapped(s.drop_last()).insert(s.last().0.of(), s.last().1)
    }
}

/// A map. The view is what each key maps to.
#[derive(Debug)]
pub struct Table<K, V> {
    entries: Vec<(K, V)>,
}

impl<K: Key, V> View for Table<K, V> {
    type V = Map<K::K, V>;

    closed spec fn view(&self) -> Map<K::K, V> {
        mapped(self.entries@)
    }
}

proof fn lemma_mapped_has<K: Key, V>(s: Seq<(K, V)>, k: K::K)
    ensures
        mapped(s).contains_key(k) == (exists|i: int| 0 <= i < s.len() && #[trigger] s[i].0.of() == k),
    decreases s.len(),
{
    if s.len() > 0 {
        lemma_mapped_has(s.drop_last(), k);
        if exists|i: int| 0 <= i < s.len() && #[trigger] s[i].0.of() == k {
            let i = choose|i: int| 0 <= i < s.len() && #[trigger] s[i].0.of() == k;
            if i < s.len() - 1 {
                assert(s.drop_last()[i].0.of() == k);
            }
        }
        if exists|i: int| 0 <= i < s.drop_last().len() && #[trigger] s.drop_last()[i].0.of() == k {
            let i = choose|i: int| 0 <= i < s.drop_last().len() && #[trigger] s.drop_last()[i].0.of() == k;
            assert(s[i].0.of() == k);
        }
        assert(s[s.len() - 1].0.of() == s.last().0.of());
    }
}

/// Values after the last for a key do not change what it maps to.
proof fn lemma_mapped_last<K: Key, V>(s: Seq<(K, V)>, i: int)
    requires
        0 <= i < s.len(),
        forall|j: int| i < j < s.len() ==> #[trigger] s[j].0.of() != s[i].0.of(),
    ensures
        mapped(s).contains_key(s[i].0.of()),
        mapped(s)[s[i].0.of()] == s[i].1,
    decreases s.len(),
{
    if i < s.len() - 1 {
        let front = s.drop_last();
        assert forall|j: int| i < j < front.len() implies #[trigger] front[j].0.of() != front[i].0.of() by {
            assert(s[j].0.of() != s[i].0.of());
        }
        lemma_mapped_last(front, i);
        assert(s[s.len() - 1].0.of() != s[i].0.of());
    }
}

/// What is left of a list without the pairs for a key.
proof fn lemma_mapped_removed<K: Key, V>(s: Seq<(K, V)>, t: Seq<(K, V)>, x: (K, V), k: K::K)
    requires
        mapped(t) == mapped(s).remove(k),
    ensures
        x.0.of() == k ==> mapped(t) == mapped(s.push(x)).remove(k),
        x.0.of() != k ==> mapped(t.push(x)) == mapped(s.push(x)).remove(k),
{
    assert(s.push(x).drop_last() =~= s);
    assert(t.push(x).drop_last() =~= t);
    if x.0.of() == k {
        assert(mapped(t) =~= mapped(s.push(x)).remove(k));
    } else {
        assert(mapped(t.push(x)) =~= mapped(s.push(x)).remove(k));
    }
}

/// No key is there twice.
pub open spec fn distinct<K: Key, V>(s: Seq<(K, V)>) -> bool {
    forall|i: int, j: int| 0 <= i < j < s.len() ==> #[trigger] s[i].0.of() != #[trigger] s[j].0.of()
}

/// As many keys map to something as there are pairs, where no key is there
/// twice.
proof fn lemma_mapped_len<K: Key, V>(s: Seq<(K, V)>)
    requires
        distinct(s),
    ensures
        mapped(s).dom().finite(),
        mapped(s).dom().len() == s.len(),
    decreases s.len(),
{
    if s.len() > 0 {
        let front = s.drop_last();
        let k = s.last().0.of();
        assert(distinct(front)) by {
            assert forall|i: int, j: int| 0 <= i < j < front.len() implies #[trigger] front[i].0.of()
                != #[trigger] front[j].0.of() by {
                assert(s[i].0.of() != s[j].0.of());
            }
        }
        lemma_mapped_len(front);
        lemma_mapped_has(front, k);
        if mapped(front).contains_key(k) {
            let i = choose|i: int| 0 <= i < front.len() && #[trigger] front[i].0.of() == k;
            assert(s[i].0.of() != s[s.len() - 1].0.of());
        }
        assert(mapped(s).dom() =~= mapped(front).dom().insert(k));
    } else {
        assert(mapped(s).dom() =~= Set::empty());
    }
}

proof fn lemma_mapped_from<K: Key, V>(s: Seq<(K, V)>, k: K::K)
    requires
        mapped(s).contains_key(k),
    ensures
        exists|i: int| 0 <= i < s.len() && (#[trigger] s[i]).0.of() == k && s[i].1 == mapped(s)[k],
    decreases s.len(),
{
    if s.len() > 0 {
        if s.last().0.of() == k {
            assert(s[s.len() - 1].0.of() == k);
        } else {
            let front = s.drop_last();
            lemma_mapped_from(front, k);
            let i = choose|i: int|
                0 <= i < front.len() && (#[trigger] front[i]).0.of() == k && front[i].1 == mapped(front)[k];
            assert(s[i] == front[i]);
        }
    }
}

impl<K: Key, V> Table<K, V> {
    /// No key is there twice.
    pub closed spec fn wf(self) -> bool {
        distinct(self.entries@)
    }

    /// How many keys map to something.
    pub fn len(&self) -> (r: usize)
        requires
            self.wf(),
        ensures
            self@.dom().finite(),
            r == self@.dom().len(),
    {
        proof {
            lemma_mapped_len(self.entries@);
        }
        self.entries.len()
    }

    /// An empty map.
    pub fn new() -> (r: Table<K, V>)
        ensures
            r.wf(),
            r@ == Map::<K::K, V>::empty(),
    {
        Table { entries: Vec::new() }
    }

    /// The pairs of the map.
    pub closed spec fn pairs(self) -> Seq<(K, V)> {
        self.entries@
    }

    /// What the pairs say is what the map says.
    pub proof fn lemma_pairs(self)
        ensures
            self@ == mapped(self.pairs()),
    {
    }

    /// Each of the pairs is what the map says, where no key is there twice.
    pub proof fn lemma_pair_at(self, i: int)
        requires
            self.wf(),
            0 <= i < self.pairs().len(),
        ensures
            self@.contains_key(self.pairs()[i].0.of()),
            self@[self.pairs()[i].0.of()] == self.pairs()[i].1,
    {
        assert forall|j: int| i < j < self.entries@.len() implies #[trigger] self.entries@[j].0.of()
            != self.entries@[i].0.of() by {
            assert(self.entries@[i].0.of() != self.entries@[j].0.of());
        }
        lemma_mapped_last(self.entries@, i);
    }

    /// What a key maps to is one of the pairs.
    pub proof fn lemma_key_at(self, k: K::K)
        requires
            self@.contains_key(k),
        ensures
            exists|i: int|
                0 <= i < self.pairs().len() && (#[trigger] self.pairs()[i]).0.of() == k && self.pairs()[i].1 == self@[k],
    {
        lemma_mapped_from(self.entries@, k);
        let i = choose|i: int|
            0 <= i < self.entries@.len() && (#[trigger] self.entries@[i]).0.of() == k && self.entries@[i].1
                == mapped(self.entries@)[k];
        assert(self.pairs()[i].0.of() == k);
    }

    /// The pairs of the map.
    pub fn entries(&self) -> (r: &Vec<(K, V)>)
        ensures
            r@ == self.pairs(),
    {
        &self.entries
    }

    /// What a key maps to.
    pub fn get(&self, k: &K) -> (r: Option<&V>)
        ensures
            match r {
                Some(v) => self@.contains_key(k.of()) && *v == self@[k.of()],
                None => !self@.contains_key(k.of()),
            },
    {
        let mut i: usize = self.entries.len();
        while i > 0
            invariant
                i <= self.entries@.len(),
                forall|j: int| i <= j < self.entries@.len() ==> #[trigger] self.entries@[j].0.of() != k.of(),
            decreases i,
        {
            i -= 1;
            if self.entries[i].0.same(k) {
                proof {
                    lemma_mapped_last(self.entries@, i as int);
                }
                return Some(&self.entries[i].1);
            }
        }
        proof {
            lemma_mapped_has(self.entries@, k.of());
        }
        None
    }

    /// Takes a key out.
    pub fn remove(&mut self, k: &K)
        ensures
            final(self)@ == old(self)@.remove(k.of()),
            old(self).wf() ==> final(self).wf(),
            !final(self)@.contains_key(k.of()),
    {
        let mut taken: Vec<(K, V)> = Vec::new();
        let ghost all = self.entries@;
        std::mem::swap(&mut taken, &mut self.entries);
        let mut kept: Vec<(K, V)> = Vec::new();
        assert(mapped(kept@) =~= mapped(all.take(0)).remove(k.of()));
        for x in it: taken
            invariant
                it.seq() == all,
                mapped(kept@) == mapped(all.take(it.index())).remove(k.of()),
                distinct(all) ==> distinct(kept@),
                forall|j: int|
                    0 <= j < kept@.len() ==> exists|i: int|
                        0 <= i < it.index() && #[trigger] all[i] == #[trigger] kept@[j],
        {
            let ghost before = kept@;
            proof {
                assert(all.take(it.index() + 1) =~= all.take(it.index()).push(x));
                lemma_mapped_removed(all.take(it.index()), kept@, x, k.of());
            }
            if !x.0.same(k) {
                kept.push(x);
            }
            proof {
                let n = it.index();
                assert(all[n] == x);
                assert forall|j: int| 0 <= j < kept@.len() implies exists|i: int|
                    0 <= i < n + 1 && #[trigger] all[i] == #[trigger] kept@[j] by {
                    if j < before.len() {
                        let i = choose|i: int| 0 <= i < n && #[trigger] all[i] == before[j];
                        assert(all[i] == kept@[j]);
                    } else {
                        assert(all[n] == kept@[j]);
                    }
                }
                if distinct(all) {
                    assert forall|i: int, j: int| 0 <= i < j < kept@.len() implies #[trigger] kept@[i].0.of()
                        != #[trigger] kept@[j].0.of() by {
                        if j == before.len() {
                            let h = choose|h: int| 0 <= h < n && #[trigger] all[h] == before[i];
                            assert(all[h].0.of() != all[n].0.of());
                        }
                    }
                }
            }
        }
        assert(all.take(all.len() as int) =~= all);
        self.entries = kept;
    }

    /// Maps a key to a value, in place of what it mapped to.
    pub fn insert(&mut self, k: K, v: V)
        ensures
            final(self)@ == old(self)@.insert(k.of(), v),
            old(self).wf() ==> final(self).wf(),
    {
        self.remove(&k);
        let ghost before = self.entries@;
        proof {
            lemma_mapped_has(before, k.of());
        }
        self.entries.push((k, v));
        proof {
            assert(self.entries@.drop_last() =~= before);
            assert(mapped(self.entries@) =~= old(self)@.insert(k.of(), v));
        }
    }
}

} // verus!
