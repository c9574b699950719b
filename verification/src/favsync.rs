//! What two sides with a memory of their last agreement should do about stars.
//!
//! A game is starred here, or on the server, or on both. What both sides held the
//! last time they agreed is the baseline. A star that is on one side only was
//! either added there since, or taken off the other side since, and the baseline
//! tells which. A game that is not on this card takes no part: it cannot be
//! starred here, and that it is not says nothing.

use vstd::prelude::*;
use std::collections::BTreeSet;
use crate::table::Table;
use crate::text;

verus! {

/// One thing to do about one game.
#[derive(Debug, Clone, Copy, PartialEq, Eq, Structural)]
pub enum Move {
    StarHere(i64),
    UnstarHere(i64),
    StarOnServer(i64),
    UnstarOnServer(i64),
}

/// The game a move is about.
pub open spec fn game_of(m: Move) -> i64 {
    match m {
        Move::StarHere(id) => id,
        Move::UnstarHere(id) => id,
        Move::StarOnServer(id) => id,
        Move::UnstarOnServer(id) => id,
    }
}

/// Whether a move is made on the server.
pub open spec fn on_server(m: Move) -> bool {
    m is StarOnServer || m is UnstarOnServer
}

/// Whether a move takes a star off.
pub open spec fn takes_off(m: Move) -> bool {
    m is UnstarHere || m is UnstarOnServer
}

impl Move {
    /// The game it is about.
    pub fn rom_id(&self) -> (r: i64)
        ensures
            r == game_of(*self),
    {
        match *self {
            Move::StarHere(id) => id,
            Move::UnstarHere(id) => id,
            Move::StarOnServer(id) => id,
            Move::UnstarOnServer(id) => id,
        }
    }

    /// Whether it is made on the server.
    pub fn touches_server(&self) -> (r: bool)
        ensures
            r == on_server(*self),
    {
        match *self {
            Move::StarOnServer(_) => true,
            Move::UnstarOnServer(_) => true,
            _ => false,
        }
    }

    /// Whether it takes a star off.
    pub fn unstars(&self) -> (r: bool)
        ensures
            r == takes_off(*self),
    {
        match *self {
            Move::UnstarHere(_) => true,
            Move::UnstarOnServer(_) => true,
            _ => false,
        }
    }
}

/// What to do about one game, given where it is starred and whether it was when
/// the two sides last agreed.
pub open spec fn verdict(id: i64, here: bool, server: bool, base: bool) -> Option<Move> {
    if here == server {
        None
    } else if here {
        Some(
            if base {
                Move::UnstarHere(id)
            } else {
                Move::StarOnServer(id)
            },
        )
    } else {
        Some(
            if base {
                Move::UnstarOnServer(id)
            } else {
                Move::StarHere(id)
            },
        )
    }
}

/// What to do about one game of a list.
pub open spec fn wanted(id: i64, here: Set<i64>, server: Set<i64>, base: Set<i64>) -> Option<Move> {
    verdict(id, here.contains(id), server.contains(id), base.contains(id))
}

/// Whether some moves are what a list needs: one for each game on the card that
/// the two sides differ about, in the order of the games.
pub open spec fn reconciled(
    here: Set<i64>,
    server: Set<i64>,
    base: Set<i64>,
    known: Set<i64>,
    moves: Seq<Move>,
) -> bool {
    &&& forall|i: int, j: int|
        0 <= i < j < moves.len() ==> game_of(#[trigger] moves[i]) < game_of(#[trigger] moves[j])
    &&& forall|i: int|
        0 <= i < moves.len() ==> known.contains(game_of(#[trigger] moves[i])) && wanted(
            game_of(moves[i]),
            here,
            server,
            base,
        ) == Some(moves[i])
    &&& forall|id: i64|
        known.contains(id) && (#[trigger] wanted(id, here, server, base)) is Some ==> moves.contains(
            wanted(id, here, server, base).unwrap(),
        )
}

/// The moves that a list needs.
pub open spec fn moves_for(here: Set<i64>, server: Set<i64>, base: Set<i64>, known: Set<i64>) -> Seq<Move> {
    choose|moves: Seq<Move>| reconciled(here, server, base, known, moves)
}

proof fn lemma_same_moves(a: Seq<Move>, b: Seq<Move>)
    requires
        forall|i: int, j: int| 0 <= i < j < a.len() ==> game_of(#[trigger] a[i]) < game_of(#[trigger] a[j]),
        forall|i: int, j: int| 0 <= i < j < b.len() ==> game_of(#[trigger] b[i]) < game_of(#[trigger] b[j]),
        forall|m: Move| #[trigger] a.contains(m) == b.contains(m),
    ensures
        a == b,
    decreases a.len(),
{
    if a.len() == 0 {
        if b.len() > 0 {
            assert(b.contains(b[0]));
            assert(a.contains(b[0]));
        }
        assert(a =~= b);
    } else {
        assert(a.contains(a[0]));
        assert(b.contains(a[0]));
        let x = a.last();
        let y = b.last();
        assert(a.contains(x) && b.contains(y));
        assert(b.contains(x) && a.contains(y));
        let i = choose|i: int| 0 <= i < b.len() && b[i] == x;
        let j = choose|j: int| 0 <= j < a.len() && a[j] == y;
        if x != y {
            assert(game_of(b[i]) < game_of(b[b.len() - 1]));
            assert(game_of(a[j]) < game_of(a[a.len() - 1]));
        }
        let fa = a.drop_last();
        let fb = b.drop_last();
        assert forall|p: int, q: int| 0 <= p < q < fa.len() implies game_of(#[trigger] fa[p]) < game_of(
            #[trigger] fa[q],
        ) by {
            assert(fa[p] == a[p] && fa[q] == a[q]);
        }
        assert forall|p: int, q: int| 0 <= p < q < fb.len() implies game_of(#[trigger] fb[p]) < game_of(
            #[trigger] fb[q],
        ) by {
            assert(fb[p] == b[p] && fb[q] == b[q]);
        }
        assert forall|m: Move| #[trigger] fa.contains(m) == fb.contains(m) by {
            if fa.contains(m) {
                let k = choose|k: int| 0 <= k < fa.len() && fa[k] == m;
                assert(a[k] == m);
                assert(game_of(a[k]) < game_of(a[a.len() - 1]));
                assert(a.contains(m));
                assert(b.contains(m));
                let q = choose|q: int| 0 <= q < b.len() && b[q] == m;
                assert(fb[q] == m);
            }
            if fb.contains(m) {
                let k = choose|k: int| 0 <= k < fb.len() && fb[k] == m;
                assert(b[k] == m);
                assert(game_of(b[k]) < game_of(b[b.len() - 1]));
                assert(b.contains(m));
                assert(a.contains(m));
                let q = choose|q: int| 0 <= q < a.len() && a[q] == m;
                assert(fa[q] == m);
            }
        }
        lemma_same_moves(fa, fb);
        assert(a =~= fa.push(x));
        assert(b =~= fb.push(y));
    }
}

/// There is only one list of moves that a list needs.
pub proof fn lemma_moves_for(here: Set<i64>, server: Set<i64>, base: Set<i64>, known: Set<i64>, moves: Seq<Move>)
    requires
        reconciled(here, server, base, known, moves),
    ensures
        moves == moves_for(here, server, base, known),
{
    let other = moves_for(here, server, base, known);
    assert(reconciled(here, server, base, known, other));
    assert forall|m: Move| #[trigger] moves.contains(m) == other.contains(m) by {
        if moves.contains(m) {
            let i = choose|i: int| 0 <= i < moves.len() && moves[i] == m;
            assert(wanted(game_of(moves[i]), here, server, base) == Some(m));
        }
        if other.contains(m) {
            let i = choose|i: int| 0 <= i < other.len() && other[i] == m;
            assert(wanted(game_of(other[i]), here, server, base) == Some(m));
        }
    }
    lemma_same_moves(moves, other);
}

/// Whether a list is a set's numbers, in their order.
pub open spec fn listing(s: Set<i64>, l: Seq<i64>) -> bool {
    &&& forall|i: int, j: int| 0 <= i < j < l.len() ==> #[trigger] l[i] < #[trigger] l[j]
    &&& forall|i: int| 0 <= i < l.len() ==> s.contains(#[trigger] l[i])
    &&& forall|x: i64| #[trigger] s.contains(x) ==> l.contains(x)
}

/// Whether numbers are in their order, each once.
pub open spec fn rising(l: Seq<i64>) -> bool {
    forall|i: int, j: int| 0 <= i < j < l.len() ==> #[trigger] l[i] < #[trigger] l[j]
}

/// A finite set's numbers can be put in their order.
proof fn lemma_can_be_listed(s: Set<i64>) -> (l: Seq<i64>)
    requires
        s.finite(),
    ensures
        listing(s, l),
    decreases s.len(),
{
    if s.is_empty() {
        assert(forall|x: i64| !s.contains(x));
        Seq::empty()
    } else {
        let top = s.choose();
        let rest = lemma_can_be_listed(s.remove(top));
        let l = lemma_put_among(s.remove(top), rest, top);
        assert(s.remove(top).insert(top) =~= s);
        l
    }
}

proof fn lemma_put_among(s: Set<i64>, l: Seq<i64>, x: i64) -> (r: Seq<i64>)
    requires
        listing(s, l),
        !s.contains(x),
    ensures
        listing(s.insert(x), r),
    decreases l.len(),
{
    let t = s.insert(x);
    if l.len() == 0 {
        let r = seq![x];
        assert forall|y: i64| #[trigger] t.contains(y) implies r.contains(y) by {
            if s.contains(y) {
                assert(l.contains(y));
            }
            assert(r[0] == x);
        }
        r
    } else if l.last() < x {
        let r = l.push(x);
        assert forall|y: i64| #[trigger] t.contains(y) implies r.contains(y) by {
            if s.contains(y) {
                assert(l.contains(y));
                let k = choose|k: int| 0 <= k < l.len() && l[k] == y;
                assert(r[k] == y);
            }
            assert(r[l.len() as int] == x);
        }
        assert forall|i: int, j: int| 0 <= i < j < r.len() implies #[trigger] r[i] < #[trigger] r[j] by {
            if j == l.len() && i < l.len() - 1 {
                assert(l[i] < l[l.len() - 1]);
            }
        }
        r
    } else {
        let front = l.drop_last();
        let less = s.remove(l.last());
        assert(s.contains(l[l.len() - 1]));
        assert forall|y: i64| #[trigger] less.contains(y) implies front.contains(y) by {
            assert(l.contains(y));
            let k = choose|k: int| 0 <= k < l.len() && l[k] == y;
            assert(front[k] == y);
        }
        assert forall|i: int| 0 <= i < front.len() implies less.contains(#[trigger] front[i]) by {
            assert(l[i] < l[l.len() - 1]);
            assert(s.contains(l[i]));
        }
        assert forall|i: int, j: int| 0 <= i < j < front.len() implies #[trigger] front[i] < #[trigger] front[j] by {
            assert(l[i] < l[j]);
        }
        let p = lemma_put_among(less, front, x);
        let r = p.push(l.last());
        assert forall|i: int| 0 <= i < p.len() implies #[trigger] p[i] < l.last() by {
            assert(less.insert(x).contains(p[i]));
            if p[i] != x {
                assert(front.contains(p[i]));
                let k = choose|k: int| 0 <= k < front.len() && front[k] == p[i];
                assert(l[k] < l[l.len() - 1]);
            }
        }
        assert forall|y: i64| #[trigger] t.contains(y) implies r.contains(y) by {
            if y == l.last() {
                assert(r[p.len() as int] == y);
            } else {
                assert(less.insert(x).contains(y));
                assert(p.contains(y));
                let k = choose|k: int| 0 <= k < p.len() && p[k] == y;
                assert(r[k] == y);
            }
        }
        assert forall|i: int| 0 <= i < r.len() implies t.contains(#[trigger] r[i]) by {
            if i < p.len() {
                assert(less.insert(x).contains(p[i]));
            }
        }
        r
    }
}

proof fn lemma_moves_along(here: Set<i64>, server: Set<i64>, base: Set<i64>, l: Seq<i64>) -> (moves: Seq<Move>)
    requires
        rising(l),
    ensures
        reconciled(here, server, base, l.to_set(), moves),
        forall|i: int| 0 <= i < moves.len() ==> l.contains(game_of(#[trigger] moves[i])),
    decreases l.len(),
{
    if l.len() == 0 {
        Seq::empty()
    } else {
        let front = l.drop_last();
        assert(rising(front)) by {
            assert forall|i: int, j: int| 0 <= i < j < front.len() implies #[trigger] front[i]
                < #[trigger] front[j] by {
                assert(l[i] < l[j]);
            }
        }
        let before = lemma_moves_along(here, server, base, front);
        let x = l.last();
        let moves = match wanted(x, here, server, base) {
            Some(m) => before.push(m),
            None => before,
        };
        assert forall|i: int| 0 <= i < before.len() implies game_of(#[trigger] before[i]) < x && l.contains(
            game_of(before[i]),
        ) by {
            let k = choose|k: int| 0 <= k < front.len() && front[k] == game_of(before[i]);
            assert(l[k] < l[l.len() - 1]);
            assert(l[k] == game_of(before[i]));
        }
        assert(l[l.len() - 1] == x);
        assert forall|id: i64|
            l.to_set().contains(id) && (#[trigger] wanted(id, here, server, base)) is Some implies moves.contains(
            wanted(id, here, server, base).unwrap(),
        ) by {
            let m = wanted(id, here, server, base).unwrap();
            let k = choose|k: int| 0 <= k < l.len() && l[k] == id;
            if k < front.len() {
                assert(front[k] == id);
                assert(front.to_set().contains(id));
                assert(before.contains(m));
                let q = choose|q: int| 0 <= q < before.len() && before[q] == m;
                assert(moves[q] == m);
            } else {
                assert(moves[before.len() as int] == m);
            }
        }
        moves
    }
}

/// Every list has one list of moves that it needs, and only one.
pub proof fn law_a_list_needs_one_list_of_moves(here: Set<i64>, server: Set<i64>, base: Set<i64>, known: Set<i64>)
    requires
        known.finite(),
    ensures
        reconciled(here, server, base, known, moves_for(here, server, base, known)),
        forall|moves: Seq<Move>| #[trigger]
            reconciled(here, server, base, known, moves) ==> moves == moves_for(here, server, base, known),
{
    let l = lemma_can_be_listed(known);
    let some = lemma_moves_along(here, server, base, l);
    assert(l.to_set() =~= known);
    assert(reconciled(here, server, base, known, some));
    assert forall|moves: Seq<Move>| #[trigger] reconciled(here, server, base, known, moves) implies moves
        == moves_for(here, server, base, known) by {
        lemma_moves_for(here, server, base, known, moves);
    }
}

pub(crate) fn put_in_order(v: &mut Vec<i64>, x: i64)
    requires
        rising(old(v)@),
    ensures
        rising(final(v)@),
        forall|y: i64| #[trigger] final(v)@.contains(y) == (old(v)@.contains(y) || y == x),
{
    let ghost before = v@;
    let mut i: usize = v.len();
    while i > 0 && v[i - 1] > x
        invariant
            i <= v@.len(),
            v@ == before,
            rising(v@),
            forall|k: int| i <= k < v@.len() ==> v@[k] > x,
        decreases i,
    {
        i -= 1;
    }
    if i > 0 && v[i - 1] == x {
        assert(before[i - 1] == x);
        return ;
    }
    v.insert(i, x);
    proof {
        assert(v@ =~= before.insert(i as int, x));
        assert forall|y: i64| #[trigger] v@.contains(y) == (before.contains(y) || y == x) by {
            if before.contains(y) {
                let k = choose|k: int| 0 <= k < before.len() && before[k] == y;
                assert(v@[if k < i { k } else { k + 1 }] == y);
            }
            if y == x {
                assert(v@[i as int] == y);
            }
            if v@.contains(y) && y != x {
                let k = choose|k: int| 0 <= k < v@.len() && v@[k] == y;
                assert(before[if k < i { k } else { k - 1 }] == y);
            }
        }
    }
}

/// The numbers of a set, in their order.
pub fn listed(s: &BTreeSet<i64>) -> (r: Vec<i64>)
    ensures
        listing(s@, r@),
{
    let mut out: Vec<i64> = Vec::new();
    let ghost all = vstd::std_specs::iter::IteratorSpec::remaining(&s.iter());
    for x in it: s.iter()
        invariant
            it.seq() == all,
            all == vstd::std_specs::iter::IteratorSpec::remaining(&s.iter()),
            rising(out@),
            forall|y: i64|
                #[trigger] out@.contains(y) <==> exists|i: int| 0 <= i < it.index() && *(#[trigger] all[i]) == y,
    {
        let ghost before = out@;
        let ghost n = it.index();
        put_in_order(&mut out, *x);
        proof {
            assert(*all[n] == *x);
            assert forall|y: i64| #[trigger] out@.contains(y) <==> exists|i: int|
                0 <= i < n + 1 && *(#[trigger] all[i]) == y by {
                assert(before.contains(y) <==> exists|i: int| 0 <= i < n && *(#[trigger] all[i]) == y);
            }
        }
    }
    proof {
        let keys = all.unref();
        assert(keys.to_set() == s@);
        assert forall|y: i64| out@.contains(y) <==> s@.contains(y) by {
            if out@.contains(y) {
                let i = choose|i: int| 0 <= i < all.len() && *(#[trigger] all[i]) == y;
                assert(keys[i] == y);
                assert(keys.to_set().contains(y));
            }
            if s@.contains(y) {
                assert(keys.to_set().contains(y));
                let i = choose|i: int| 0 <= i < keys.len() && keys[i] == y;
                assert(*all[i] == y);
            }
        }
        assert forall|i: int| 0 <= i < out@.len() implies s@.contains(#[trigger] out@[i]) by {
            assert(out@.contains(out@[i]));
        }
    }
    out
}

/// Works out what to do about a list: `here` is what is starred on the card,
/// `server` what the server holds, `base` what both held when they last agreed,
/// and `known` every game on the card.
pub fn reconcile(
    here: &BTreeSet<i64>,
    server: &BTreeSet<i64>,
    base: &BTreeSet<i64>,
    known: &BTreeSet<i64>,
) -> (r: Vec<Move>)
    ensures
        reconciled(here@, server@, base@, known@, r@),
        r@ == moves_for(here@, server@, base@, known@),
{
    let ids = listed(known);
    let mut out: Vec<Move> = Vec::new();
    let mut i: usize = 0;
    while i < ids.len()
        invariant
            listing(known@, ids@),
            i <= ids@.len(),
            forall|a: int, b: int|
                0 <= a < b < out@.len() ==> game_of(#[trigger] out@[a]) < game_of(#[trigger] out@[b]),
            forall|a: int|
                0 <= a < out@.len() ==> known@.contains(game_of(#[trigger] out@[a])) && wanted(
                    game_of(out@[a]),
                    here@,
                    server@,
                    base@,
                ) == Some(out@[a]) && (i < ids@.len() ==> game_of(out@[a]) < ids@[i as int]),
            forall|k: int|
                0 <= k < i && wanted(#[trigger] ids@[k], here@, server@, base@) is Some ==> out@.contains(
                    wanted(ids@[k], here@, server@, base@).unwrap(),
                ),
        decreases ids@.len() - i,
    {
        let id: i64 = ids[i];
        let ghost before = out@;
        let ghost n = i as int;
        let h = here.contains(&id);
        let s = server.contains(&id);
        let b = base.contains(&id);
        if h && !s {
            out.push(if b { Move::UnstarHere(id) } else { Move::StarOnServer(id) });
        } else if !h && s {
            out.push(if b { Move::UnstarOnServer(id) } else { Move::StarHere(id) });
        }
        i += 1;
        proof {
            assert forall|k: int| 0 <= k < i && wanted(#[trigger] ids@[k], here@, server@, base@) is Some implies
                out@.contains(wanted(ids@[k], here@, server@, base@).unwrap()) by {
                let m = wanted(ids@[k], here@, server@, base@).unwrap();
                if k < n {
                    assert(before.contains(m));
                    let a = choose|a: int| 0 <= a < before.len() && before[a] == m;
                    assert(out@[a] == m);
                } else {
                    assert(out@[out@.len() - 1] == m);
                }
            }
        }
    }
    proof {
        assert forall|id: i64|
            known@.contains(id) && (#[trigger] wanted(id, here@, server@, base@)) is Some implies out@.contains(
            wanted(id, here@, server@, base@).unwrap(),
        ) by {
            assert(ids@.contains(id));
            let k = choose|k: int| 0 <= k < ids@.len() && ids@[k] == id;
            assert(wanted(ids@[k], here@, server@, base@) is Some);
        }
        lemma_moves_for(here@, server@, base@, known@, out@);
    }
    out
}

/// Whether a game is starred after some moves, given whether it was before them.
pub open spec fn starred_after(moves: Seq<Move>, id: i64, before: bool) -> bool
    decreases moves.len(),
{
    if moves.len() == 0 {
        before
    } else if game_of(moves.last()) == id {
        !takes_off(moves.last())
    } else {
        starred_after(moves.drop_last(), id, before)
    }
}

/// What both sides hold, of the games on the card, once the moves are made.
pub open spec fn agreed_on(here: Set<i64>, server: Set<i64>, moves: Seq<Move>, known: Set<i64>) -> Set<i64> {
    Set::new(|id: i64| known.contains(id) && starred_after(moves, id, here.contains(id) && server.contains(id)))
}

fn last_said(moves: &Vec<Move>, id: i64, before: bool) -> (r: bool)
    ensures
        r == starred_after(moves@, id, before),
{
    let mut i: usize = moves.len();
    assert(moves@.take(i as int) =~= moves@);
    while i > 0
        invariant
            i <= moves@.len(),
            starred_after(moves@, id, before) == starred_after(moves@.take(i as int), id, before),
        decreases i,
    {
        i -= 1;
        assert(moves@.take(i + 1).drop_last() =~= moves@.take(i as int));
        if moves[i].rom_id() == id {
            return !moves[i].unstars();
        }
    }
    before
}

/// What both sides hold, of the games on the card, once the moves are made.
pub fn settled(
    here: &BTreeSet<i64>,
    server: &BTreeSet<i64>,
    moves: &Vec<Move>,
    known: &BTreeSet<i64>,
) -> (r: BTreeSet<i64>)
    ensures
        r@ == agreed_on(here@, server@, moves@, known@),
{
    let ids = listed(known);
    let mut out: BTreeSet<i64> = BTreeSet::new();
    let mut i: usize = 0;
    let ghost want = agreed_on(here@, server@, moves@, known@);
    while i < ids.len()
        invariant
            listing(known@, ids@),
            want == agreed_on(here@, server@, moves@, known@),
            i <= ids@.len(),
            forall|x: i64|
                #[trigger] out@.contains(x) <==> want.contains(x) && exists|k: int| 0 <= k < i && #[trigger] ids@[k] == x,
        decreases ids@.len() - i,
    {
        let id: i64 = ids[i];
        let ghost before = out@;
        let ghost n = i as int;
        let both = here.contains(&id) && server.contains(&id);
        if last_said(moves, id, both) {
            let _ = out.insert(id);
        }
        i += 1;
        proof {
            assert(ids@[n] == id);
            assert(known@.contains(id));
            assert forall|x: i64| #[trigger] out@.contains(x) <==> want.contains(x) && exists|k: int|
                0 <= k < i && #[trigger] ids@[k] == x by {
                assert(before.contains(x) <==> want.contains(x) && exists|k: int| 0 <= k < n && #[trigger] ids@[k] == x);
            }
        }
    }
    proof {
        assert forall|x: i64| out@.contains(x) <==> want.contains(x) by {
            if want.contains(x) {
                assert(ids@.contains(x));
                let k = choose|k: int| 0 <= k < ids@.len() && ids@[k] == x;
                assert(ids@[k] == x);
            }
        }
        assert(out@ =~= want);
    }
    out
}

/// What the two sides agreed on last time, for each list.
#[derive(Debug)]
pub struct Baseline {
    pub agreed: Table<String, BTreeSet<i64>>,
}

impl Default for Baseline {
    fn default() -> (r: Baseline)
        ensures
            r.agreed.wf(),
            r.agreed@ == Map::<Seq<char>, BTreeSet<i64>>::empty(),
    {
        Baseline { agreed: Table::new() }
    }
}

/// What was agreed on for a list; nothing where it was never synced.
pub open spec fn base_of(m: Map<Seq<char>, BTreeSet<i64>>, id: Seq<char>) -> Set<i64> {
    if m.contains_key(id) {
        m[id]@
    } else {
        Set::empty()
    }
}

impl Baseline {
    /// Whether a list has been synced before.
    pub fn seen(&self, id: &str) -> (r: bool)
        ensures
            r == self.agreed@.contains_key(id@),
    {
        self.agreed.get(&text::owned(id)).is_some()
    }

    /// What was agreed on for a list; nothing where it was never synced.
    pub fn of(&self, id: &str) -> (r: BTreeSet<i64>)
        ensures
            r@ == base_of(self.agreed@, id@),
    {
        match self.agreed.get(&text::owned(id)) {
            Some(s) => s.clone(),
            None => BTreeSet::new(),
        }
    }
}

/// The side that some moves leave: what it had, with the moves made on it.
pub open spec fn side_after(side: Set<i64>, moves: Seq<Move>, server: bool) -> Set<i64> {
    Set::new(|id: i64| starred_after(moves.filter(|m: Move| on_server(m) == server), id, side.contains(id)))
}

pub proof fn lemma_only_move(moves: Seq<Move>, id: i64, before: bool)
    requires
        forall|i: int, j: int|
            0 <= i < j < moves.len() ==> game_of(#[trigger] moves[i]) < game_of(#[trigger] moves[j]),
    ensures
        forall|i: int|
            0 <= i < moves.len() && game_of(#[trigger] moves[i]) == id ==> starred_after(moves, id, before)
                == !takes_off(moves[i]),
        (forall|i: int| 0 <= i < moves.len() ==> game_of(#[trigger] moves[i]) != id) ==> starred_after(
            moves,
            id,
            before,
        ) == before,
    decreases moves.len(),
{
    if moves.len() > 0 {
        let front = moves.drop_last();
        assert forall|i: int, j: int| 0 <= i < j < front.len() implies game_of(#[trigger] front[i]) < game_of(
            #[trigger] front[j],
        ) by {
            assert(front[i] == moves[i] && front[j] == moves[j]);
        }
        lemma_only_move(front, id, before);
        assert forall|i: int| 0 <= i < moves.len() && game_of(#[trigger] moves[i]) == id implies starred_after(
            moves,
            id,
            before,
        ) == !takes_off(moves[i]) by {
            if i < moves.len() - 1 {
                assert(front[i] == moves[i]);
                assert(game_of(moves[i]) < game_of(moves[moves.len() - 1]));
            }
        }
        if forall|i: int| 0 <= i < moves.len() ==> game_of(#[trigger] moves[i]) != id {
            assert(game_of(moves[moves.len() - 1]) != id);
            assert forall|i: int| 0 <= i < front.len() implies game_of(#[trigger] front[i]) != id by {
                assert(front[i] == moves[i]);
            }
        }
    }
}

proof fn lemma_side(moves: Seq<Move>, id: i64, before: bool, server: bool)
    requires
        forall|i: int, j: int|
            0 <= i < j < moves.len() ==> game_of(#[trigger] moves[i]) < game_of(#[trigger] moves[j]),
    ensures
        forall|i: int|
            0 <= i < moves.len() && game_of(#[trigger] moves[i]) == id && on_server(moves[i]) == server ==> starred_after(
                moves.filter(|m: Move| on_server(m) == server),
                id,
                before,
            ) == !takes_off(moves[i]),
        forall|i: int|
            0 <= i < moves.len() && game_of(#[trigger] moves[i]) == id && on_server(moves[i]) != server ==> starred_after(
                moves.filter(|m: Move| on_server(m) == server),
                id,
                before,
            ) == before,
        (forall|i: int| 0 <= i < moves.len() ==> game_of(#[trigger] moves[i]) != id) ==> starred_after(
            moves.filter(|m: Move| on_server(m) == server),
            id,
            before,
        ) == before,
    decreases moves.len(),
{
    let f = |m: Move| on_server(m) == server;
    reveal(Seq::filter);
    if moves.len() > 0 {
        let front = moves.drop_last();
        let last = moves.last();
        assert(moves =~= front.push(last));
        front.lemma_filter_push(last, f);
        assert forall|i: int, j: int| 0 <= i < j < front.len() implies game_of(#[trigger] front[i]) < game_of(
            #[trigger] front[j],
        ) by {
            assert(front[i] == moves[i] && front[j] == moves[j]);
        }
        lemma_side(front, id, before, server);
        let kept = front.filter(f);
        if f(last) {
            assert(moves.filter(f) == kept.push(last));
            assert(kept.push(last).drop_last() =~= kept);
        }
        assert forall|i: int| 0 <= i < front.len() implies game_of(#[trigger] front[i]) < game_of(last) by {
            assert(front[i] == moves[i]);
            assert(game_of(moves[i]) < game_of(moves[moves.len() - 1]));
        }
        assert forall|i: int|
            0 <= i < moves.len() && game_of(#[trigger] moves[i]) == id && on_server(moves[i]) == server implies starred_after(
            moves.filter(f),
            id,
            before,
        ) == !takes_off(moves[i]) by {
            if i < front.len() {
                assert(front[i] == moves[i]);
            }
        }
        assert forall|i: int|
            0 <= i < moves.len() && game_of(#[trigger] moves[i]) == id && on_server(moves[i]) != server implies starred_after(
            moves.filter(f),
            id,
            before,
        ) == before by {
            if i < front.len() {
                assert(front[i] == moves[i]);
            } else {
                assert forall|k: int| 0 <= k < front.len() implies game_of(#[trigger] front[k]) != id by {}
            }
        }
        if forall|i: int| 0 <= i < moves.len() ==> game_of(#[trigger] moves[i]) != id {
            assert(game_of(moves[moves.len() - 1]) != id);
            assert forall|i: int| 0 <= i < front.len() implies game_of(#[trigger] front[i]) != id by {
                assert(front[i] == moves[i]);
            }
        }
    }
}

/// Once the moves are made, the two sides hold the same of the games on the card,
/// and it is what is written down as agreed.
pub proof fn law_the_moves_make_both_sides_agree(
    here: Set<i64>,
    server: Set<i64>,
    base: Set<i64>,
    known: Set<i64>,
    moves: Seq<Move>,
)
    requires
        reconciled(here, server, base, known, moves),
    ensures
        forall|id: i64|
            known.contains(id) ==> (#[trigger] side_after(here, moves, false).contains(id)) == agreed_on(
                here,
                server,
                moves,
                known,
            ).contains(id) && side_after(server, moves, true).contains(id) == agreed_on(
                here,
                server,
                moves,
                known,
            ).contains(id),
{
    assert forall|id: i64| known.contains(id) implies (#[trigger] side_after(here, moves, false).contains(id))
        == agreed_on(here, server, moves, known).contains(id) && side_after(server, moves, true).contains(id)
        == agreed_on(here, server, moves, known).contains(id) by {
        lemma_only_move(moves, id, here.contains(id) && server.contains(id));
        lemma_side(moves, id, here.contains(id), false);
        lemma_side(moves, id, server.contains(id), true);
        if wanted(id, here, server, base) is Some {
            let m = wanted(id, here, server, base).unwrap();
            assert(moves.contains(m));
            let i = choose|i: int| 0 <= i < moves.len() && moves[i] == m;
            assert(game_of(moves[i]) == id);
        } else {
            assert forall|i: int| 0 <= i < moves.len() implies game_of(#[trigger] moves[i]) != id by {
                assert(wanted(game_of(moves[i]), here, server, base) == Some(moves[i]));
            }
        }
    }
}

/// Where both sides hold what was agreed, there is nothing to do.
pub proof fn law_agreement_needs_no_move(here: Set<i64>, server: Set<i64>, base: Set<i64>, known: Set<i64>, moves: Seq<Move>)
    requires
        reconciled(here, server, base, known, moves),
        forall|id: i64| known.contains(id) ==> (#[trigger] here.contains(id)) == server.contains(id),
    ensures
        moves.len() == 0,
{
    if moves.len() > 0 {
        let id = game_of(moves[0]);
        assert(here.contains(id) == server.contains(id));
    }
}

/// A list that was never synced is only added to: no star comes off either side.
pub proof fn law_a_first_sync_takes_no_star_off(here: Set<i64>, server: Set<i64>, known: Set<i64>, moves: Seq<Move>)
    requires
        reconciled(here, server, Set::empty(), known, moves),
    ensures
        forall|i: int| 0 <= i < moves.len() ==> !takes_off(#[trigger] moves[i]),
{
    assert forall|i: int| 0 <= i < moves.len() implies !takes_off(#[trigger] moves[i]) by {
        assert(wanted(game_of(moves[i]), here, server, Set::empty()) == Some(moves[i]));
    }
}

/// Taking a star off travels: a game that both sides agreed was starred, and that
/// is no longer starred on one of them, comes off the other.
pub proof fn law_an_unstar_travels(
    here: Set<i64>,
    server: Set<i64>,
    base: Set<i64>,
    known: Set<i64>,
    moves: Seq<Move>,
    id: i64,
)
    requires
        reconciled(here, server, base, known, moves),
        known.contains(id),
        base.contains(id),
    ensures
        !here.contains(id) && server.contains(id) ==> moves.contains(Move::UnstarOnServer(id)),
        here.contains(id) && !server.contains(id) ==> moves.contains(Move::UnstarHere(id)),
{
    assert(wanted(id, here, server, base) is Some ==> moves.contains(wanted(id, here, server, base).unwrap()));
}

/// A game that is not on the card is left alone.
pub proof fn law_only_games_on_the_card_move(
    here: Set<i64>,
    server: Set<i64>,
    base: Set<i64>,
    known: Set<i64>,
    moves: Seq<Move>,
    id: i64,
)
    requires
        reconciled(here, server, base, known, moves),
        !known.contains(id),
    ensures
        forall|i: int| 0 <= i < moves.len() ==> game_of(#[trigger] moves[i]) != id,
{
}

} // verus!
