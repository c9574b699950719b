//! What carrying a plan out comes to: which lists are recorded as agreed on, which
//! are named as failed, and what is put on the card.

use vstd::prelude::*;
use crate::disk;
use crate::disk::Disk;
use crate::eslist;
use crate::eslist_laws;
use crate::favcarry;
use crate::favcarry::{HereWork, Outcome};
use crate::favmap;
use crate::favmap::{EsPaths, Known, OnCard};
use crate::favrun;
use crate::favrun::{Item, Plan, Work};
use crate::favsync;
use crate::favsync::Move;
use crate::gamelist;
use crate::lines;
use crate::order;
use crate::path_set;
use crate::paths;
use crate::picks;
use crate::text;

verus! {

// ---------------------------------------------------------------------------
// Moves
// ---------------------------------------------------------------------------

/// The moves of one kind are those that a filter leaves, in their order.
proof fn lemma_picked(moves: Seq<Move>, f: spec_fn(Move) -> bool)
    ensures
        favrun::picked(moves, f).len() == moves.filter(f).len(),
        favrun::tally(moves, f) == moves.filter(f).len(),
        forall|k: int|
            0 <= k < moves.filter(f).len() ==> #[trigger] favrun::picked(moves, f)[k] == favsync::game_of(
                moves.filter(f)[k],
            ),
    decreases moves.len(),
{
    reveal(Seq::filter);
    if moves.len() > 0 {
        lemma_picked(moves.drop_last(), f);
    }
}

/// What a star on the server is.
pub open spec fn to_star_there() -> spec_fn(Move) -> bool {
    |m: Move| m is StarOnServer
}

/// What a star off the server is.
pub open spec fn to_unstar_there() -> spec_fn(Move) -> bool {
    |m: Move| m is UnstarOnServer
}

/// What a star off either side is.
pub open spec fn to_unstar() -> spec_fn(Move) -> bool {
    |m: Move| m is UnstarHere || m is UnstarOnServer
}

/// What a star on either side is.
pub open spec fn to_star() -> spec_fn(Move) -> bool {
    |m: Move| m is StarHere || m is StarOnServer
}

/// What is done on the card.
pub open spec fn to_do_here() -> spec_fn(Move) -> bool {
    |m: Move| m is StarHere || m is UnstarHere
}

proof fn lemma_kinds()
    ensures
        favrun::sends_up() == to_star_there(),
        favrun::takes_down() == to_unstar_there(),
        favrun::unstar() == to_unstar(),
        favrun::star() == to_star(),
        favrun::made_here() == to_do_here(),
{
    assert(favrun::sends_up() =~= to_star_there());
    assert(favrun::takes_down() =~= to_unstar_there());
    assert(favrun::unstar() =~= to_unstar());
    assert(favrun::star() =~= to_star());
    assert(favrun::made_here() =~= to_do_here());
}

/// The server is asked to star just the games that an item has a star there for,
/// each as often and in the order of its moves.
pub proof fn law_the_server_is_asked_to_star(item: &Item, r: Vec<i64>)
    requires
        call_ensures(Item::to_server, (item,), r),
    ensures
        r@.len() == item.moves@.filter(to_star_there()).len(),
        forall|k: int|
            0 <= k < r@.len() ==> item.moves@.filter(to_star_there())[k] == Move::StarOnServer(#[trigger] r@[k]),
        forall|g: i64| #[trigger] r@.contains(g) <==> item.moves@.contains(Move::StarOnServer(g)),
{
    lemma_kinds();
    let f = to_star_there();
    lemma_picked(item.moves@, f);
    let at = picks::lemma_filter_places(item.moves@, f);
    assert forall|k: int| 0 <= k < r@.len() implies item.moves@.filter(f)[k] == Move::StarOnServer(
        #[trigger] r@[k],
    ) by {
        assert(r@[k] == favrun::picked(item.moves@, f)[k]);
        assert(f(item.moves@[at[k]]));
    }
    assert forall|g: i64| #[trigger] r@.contains(g) <==> item.moves@.contains(Move::StarOnServer(g)) by {
        if r@.contains(g) {
            let k = r@.index_of(g);
            assert(r@[k] == g);
            assert(item.moves@[at[k]] == Move::StarOnServer(g));
        }
        if item.moves@.contains(Move::StarOnServer(g)) {
            let i = item.moves@.index_of(Move::StarOnServer(g));
            assert(f(item.moves@[i]));
            let k = at.index_of(i);
            assert(at[k] == i);
            assert(r@[k] == g);
        }
    }
}

/// The server is asked to unstar just the games that an item takes a star off there
/// for, each as often and in the order of its moves.
pub proof fn law_the_server_is_asked_to_unstar(item: &Item, r: Vec<i64>)
    requires
        call_ensures(Item::off_server, (item,), r),
    ensures
        r@.len() == item.moves@.filter(to_unstar_there()).len(),
        forall|k: int|
            0 <= k < r@.len() ==> item.moves@.filter(to_unstar_there())[k] == Move::UnstarOnServer(
                #[trigger] r@[k],
            ),
        forall|g: i64| #[trigger] r@.contains(g) <==> item.moves@.contains(Move::UnstarOnServer(g)),
{
    lemma_kinds();
    let f = to_unstar_there();
    lemma_picked(item.moves@, f);
    let at = picks::lemma_filter_places(item.moves@, f);
    assert forall|k: int| 0 <= k < r@.len() implies item.moves@.filter(f)[k] == Move::UnstarOnServer(
        #[trigger] r@[k],
    ) by {
        assert(r@[k] == favrun::picked(item.moves@, f)[k]);
        assert(f(item.moves@[at[k]]));
    }
    assert forall|g: i64| #[trigger] r@.contains(g) <==> item.moves@.contains(Move::UnstarOnServer(g)) by {
        if r@.contains(g) {
            let k = r@.index_of(g);
            assert(r@[k] == g);
            assert(item.moves@[at[k]] == Move::UnstarOnServer(g));
        }
        if item.moves@.contains(Move::UnstarOnServer(g)) {
            let i = item.moves@.index_of(Move::UnstarOnServer(g));
            assert(f(item.moves@[i]));
            let k = at.index_of(i);
            assert(at[k] == i);
            assert(r@[k] == g);
        }
    }
}

// ---------------------------------------------------------------------------
// Too many at once
// ---------------------------------------------------------------------------

/// All the moves of some items, one after the other.
pub open spec fn every_move(items: Seq<Item>) -> Seq<Move>
    decreases items.len(),
{
    if items.len() == 0 {
        Seq::empty()
    } else {
        every_move(items.drop_last()) + items.last().moves@
    }
}

proof fn lemma_filter_add(a: Seq<Move>, b: Seq<Move>, f: spec_fn(Move) -> bool)
    ensures
        (a + b).filter(f).len() == a.filter(f).len() + b.filter(f).len(),
    decreases b.len(),
{
    reveal(Seq::filter);
    if b.len() == 0 {
        assert(a + b =~= a);
    } else {
        assert((a + b).drop_last() =~= a + b.drop_last());
        lemma_filter_add(a, b.drop_last(), f);
    }
}

proof fn lemma_moves_in(items: Seq<Item>, f: spec_fn(Move) -> bool)
    ensures
        favrun::moves_in(favrun::works(items), f) == every_move(items).filter(f).len(),
        favrun::all_moves(favrun::works(items)) == every_move(items).len(),
    decreases items.len(),
{
    reveal(Seq::filter);
    if items.len() > 0 {
        lemma_moves_in(items.drop_last(), f);
        lemma_picked(items.last().moves@, f);
        lemma_filter_add(every_move(items.drop_last()), items.last().moves@, f);
        assert(favrun::works(items).drop_last() =~= favrun::works(items.drop_last()));
        assert(favrun::works(items).last() == items.last()@);
    }
}

/// Whether an item takes more than a few games off its list at once, and more than
/// half of those that it had before.
pub open spec fn takes_too_many(i: Item) -> bool {
    let off = i.moves@.filter(to_unstar()).len();
    let on = i.moves@.filter(to_star()).len();
    off > 2 && 2 * off > i.agreed@.len() + off - on
}

proof fn lemma_worst(items: Seq<Item>)
    ensures
        favrun::worst(favrun::works(items)) is Some <==> exists|k: int|
            0 <= k < items.len() && takes_too_many(#[trigger] items[k]),
    decreases items.len(),
{
    if items.len() > 0 {
        let front = items.drop_last();
        let last = items.last();
        let m = items.len() - 1;
        lemma_worst(front);
        lemma_kinds();
        lemma_picked(last.moves@, to_unstar());
        lemma_picked(last.moves@, to_star());
        assert(favrun::works(items).drop_last() =~= favrun::works(front));
        assert(favrun::works(items).last() == last@);
        assert(takes_too_many(last) == favrun::empties(last@));
        assert(items[m] == last);
        assert forall|k: int| 0 <= k < m implies #[trigger] items[k] == front[k] by {}
        if exists|k: int| 0 <= k < front.len() && takes_too_many(#[trigger] front[k]) {
            let k = choose|k: int| 0 <= k < front.len() && takes_too_many(#[trigger] front[k]);
            assert(takes_too_many(items[k]));
        }
        if exists|k: int| 0 <= k < items.len() && takes_too_many(#[trigger] items[k]) {
            let k = choose|k: int| 0 <= k < items.len() && takes_too_many(#[trigger] items[k]);
            if k < m {
                assert(takes_too_many(front[k]));
            }
        }
    }
}

/// A plan is objected to just where it takes more stars off than a run may, on
/// either side and over all its lists, or where some list loses more than a few
/// games and more than half of those it had.
pub proof fn law_a_plan_that_empties_lists_is_objected_to(plan: &Plan, r: Option<String>)
    requires
        call_ensures(Plan::too_many_unstars, (plan,), r),
    ensures
        r is Some <==> every_move(plan.items@).filter(to_unstar()).len() > 20 || exists|k: int|
            0 <= k < plan.items@.len() && takes_too_many(#[trigger] plan.items@[k]),
{
    lemma_kinds();
    lemma_moves_in(plan.items@, to_unstar());
    lemma_worst(plan.items@);
}

// ---------------------------------------------------------------------------
// What is agreed on
// ---------------------------------------------------------------------------

/// An agreement that was written down is there, unless a later one for the same
/// list took its place.
pub proof fn law_every_agreement_is_recorded(
    m: Map<Seq<char>, Set<i64>>,
    already: Seq<(Seq<char>, Set<i64>)>,
    k: int,
)
    requires
        0 <= k < already.len(),
        forall|l: int| k < l < already.len() ==> (#[trigger] already[l]).0 != already[k].0,
    ensures
        favcarry::recorded(m, already).contains_key(already[k].0),
        favcarry::recorded(m, already)[already[k].0] == already[k].1,
    decreases already.len(),
{
    let n = already.len() - 1;
    if k < n {
        let front = already.drop_last();
        assert(already[n].0 != already[k].0);
        assert forall|l: int| k < l < front.len() implies (#[trigger] front[l]).0 != front[k].0 by {
            assert(already[l] == front[l]);
        }
        law_every_agreement_is_recorded(m, front, k);
    }
}

/// A list of which no agreement is written down keeps what it had.
pub proof fn law_other_lists_keep_what_they_had(
    m: Map<Seq<char>, Set<i64>>,
    already: Seq<(Seq<char>, Set<i64>)>,
    id: Seq<char>,
)
    requires
        forall|k: int| 0 <= k < already.len() ==> (#[trigger] already[k]).0 != id,
    ensures
        favcarry::recorded(m, already).contains_key(id) == m.contains_key(id),
        m.contains_key(id) ==> favcarry::recorded(m, already)[id] == m[id],
    decreases already.len(),
{
    if already.len() > 0 {
        let front = already.drop_last();
        assert(already[already.len() - 1].0 != id);
        assert forall|k: int| 0 <= k < front.len() implies (#[trigger] front[k]).0 != id by {
            assert(already[k] == front[k]);
        }
        law_other_lists_keep_what_they_had(m, front, id);
    }
}

/// Writing agreements down says that something changed just where something did,
/// where no list is in them twice.
pub proof fn law_recording_says_whether_it_changed_something(
    m: Map<Seq<char>, Set<i64>>,
    already: Seq<(Seq<char>, Set<i64>)>,
)
    requires
        forall|i: int, j: int| 0 <= i < j < already.len() ==> (#[trigger] already[i]).0 != (#[trigger] already[j]).0,
    ensures
        favcarry::news(m, already) <==> favcarry::recorded(m, already) != m,
    decreases already.len(),
{
    if already.len() > 0 {
        let front = already.drop_last();
        let n = already.len() - 1;
        let (id, agreed) = already.last();
        law_recording_says_whether_it_changed_something(m, front);
        let before = favcarry::recorded(m, front);
        let after = favcarry::recorded(m, already);
        assert forall|k: int| 0 <= k < front.len() implies (#[trigger] front[k]).0 != id by {
            assert(front[k] == already[k] && already[n].0 == id);
        }
        law_other_lists_keep_what_they_had(m, front, id);
        if before.contains_key(id) && before[id] == agreed {
            assert(after =~= before);
        } else {
            assert(after.contains_key(id) && after[id] == agreed);
            assert(!(m.contains_key(id) && m[id] == agreed));
            assert(after != m);
        }
    }
}

/// Whether both halves of an item went through.
pub open spec fn went_through(o: Outcome) -> bool {
    match o {
        Outcome::Refused(_) => false,
        Outcome::Here(r) => r is Ok,
    }
}

/// A list both of whose halves went through is recorded as agreed on, unless a
/// later one of the same id is.
pub proof fn law_what_went_through_is_agreed_on(
    agreed: Map<Seq<char>, Set<i64>>,
    items: Seq<Work>,
    outcomes: Seq<Outcome>,
    k: int,
)
    requires
        items.len() == outcomes.len(),
        0 <= k < items.len(),
        went_through(outcomes[k]),
        forall|l: int|
            k < l < items.len() ==> !(went_through(outcomes[l]) && (#[trigger] items[l]).id == items[k].id),
    ensures
        favcarry::ran(agreed, items, outcomes).agreed.contains_key(items[k].id),
        favcarry::ran(agreed, items, outcomes).agreed[items[k].id] == items[k].agreed,
    decreases items.len(),
{
    let n = items.len() - 1;
    if k < n {
        let fi = items.drop_last();
        let fo = outcomes.take(n);
        assert(!(went_through(outcomes[n]) && items[n].id == items[k].id));
        assert forall|l: int| k < l < fi.len() implies !(went_through(fo[l]) && (#[trigger] fi[l]).id
            == fi[k].id) by {
            assert(items[l] == fi[l] && outcomes[l] == fo[l]);
        }
        law_what_went_through_is_agreed_on(agreed, fi, fo, k);
    }
}

/// A list that did not go through, or that had nothing to do, keeps what was agreed
/// on for it.
pub proof fn law_what_did_not_go_through_is_not_agreed_on(
    agreed: Map<Seq<char>, Set<i64>>,
    items: Seq<Work>,
    outcomes: Seq<Outcome>,
    id: Seq<char>,
)
    requires
        items.len() == outcomes.len(),
        forall|k: int| 0 <= k < items.len() && (#[trigger] items[k]).id == id ==> !went_through(outcomes[k]),
    ensures
        favcarry::ran(agreed, items, outcomes).agreed.contains_key(id) == agreed.contains_key(id),
        agreed.contains_key(id) ==> favcarry::ran(agreed, items, outcomes).agreed[id] == agreed[id],
    decreases items.len(),
{
    if items.len() > 0 {
        let n = items.len() - 1;
        let fi = items.drop_last();
        let fo = outcomes.take(n);
        assert(items[n].id == id ==> !went_through(outcomes[n]));
        assert forall|k: int| 0 <= k < fi.len() && (#[trigger] fi[k]).id == id implies !went_through(fo[k]) by {
            assert(items[k] == fi[k] && outcomes[k] == fo[k]);
        }
        law_what_did_not_go_through_is_not_agreed_on(agreed, fi, fo, id);
    }
}

/// Whether a list did not go through.
pub open spec fn fell_through() -> spec_fn(Outcome) -> bool {
    |o: Outcome| !went_through(o)
}

/// There is one line for each list that did not go through, and no other.
pub proof fn law_every_list_that_failed_is_named(
    agreed: Map<Seq<char>, Set<i64>>,
    items: Seq<Work>,
    outcomes: Seq<Outcome>,
)
    requires
        items.len() == outcomes.len(),
    ensures
        favcarry::ran(agreed, items, outcomes).failed.len() == outcomes.filter(fell_through()).len(),
    decreases items.len(),
{
    reveal(Seq::filter);
    if items.len() > 0 {
        assert(outcomes.take(items.len() - 1) =~= outcomes.drop_last());
        law_every_list_that_failed_is_named(agreed, items.drop_last(), outcomes.drop_last());
    }
}

/// The line of a list that did not go through names it first, and stands after
/// those of the lists before it.
pub proof fn law_a_list_that_failed_is_named_first(
    agreed: Map<Seq<char>, Set<i64>>,
    items: Seq<Work>,
    outcomes: Seq<Outcome>,
    k: int,
)
    requires
        items.len() == outcomes.len(),
        0 <= k < items.len(),
        !went_through(outcomes[k]),
    ensures
        ({
            let n = outcomes.take(k).filter(fell_through()).len() as int;
            let failed = favcarry::ran(agreed, items, outcomes).failed;
            n < failed.len() && text::starts(failed[n], items[k].name + ": "@)
        }),
    decreases items.len(),
{
    let m = items.len() - 1;
    let fi = items.drop_last();
    let fo = outcomes.drop_last();
    assert(outcomes.take(m) =~= fo);
    let b = favcarry::ran(agreed, fi, fo);
    if k < m {
        law_a_list_that_failed_is_named_first(agreed, fi, fo, k);
        assert(fo.take(k) =~= outcomes.take(k));
    } else {
        favcarry::law_a_list_that_failed_keeps_its_baseline(b, items.last(), outcomes[m]);
        law_every_list_that_failed_is_named(agreed, fi, fo);
    }
}

/// A collection file is passed on to be shown just where its list went through.
pub proof fn law_the_files_that_went_through_are_passed_on(
    agreed: Map<Seq<char>, Set<i64>>,
    items: Seq<Work>,
    outcomes: Seq<Outcome>,
    name: Seq<char>,
)
    requires
        items.len() == outcomes.len(),
    ensures
        favcarry::ran(agreed, items, outcomes).files.contains(name) <==> exists|k: int|
            0 <= k < items.len() && went_through(outcomes[k]) && (#[trigger] items[k]).held is File
                && items[k].name == name,
    decreases items.len(),
{
    if items.len() > 0 {
        let n = items.len() - 1;
        let fi = items.drop_last();
        let fo = outcomes.take(n);
        law_the_files_that_went_through_are_passed_on(agreed, fi, fo, name);
        let b = favcarry::ran(agreed, fi, fo).files;
        let r = favcarry::ran(agreed, items, outcomes).files;
        if r.contains(name) {
            if b.contains(name) {
                let k = choose|k: int|
                    0 <= k < fi.len() && went_through(fo[k]) && (#[trigger] fi[k]).held is File && fi[k].name
                        == name;
                assert(items[k] == fi[k] && outcomes[k] == fo[k]);
            } else {
                let x = r.index_of(name);
                assert(r[x] == name);
                if x < b.len() {
                    assert(b[x] == name);
                }
                assert(went_through(outcomes[n]) && items[n].held is File && items[n].name == name);
            }
        }
        if exists|k: int|
            0 <= k < items.len() && went_through(outcomes[k]) && (#[trigger] items[k]).held is File
                && items[k].name == name {
            let k = choose|k: int|
                0 <= k < items.len() && went_through(outcomes[k]) && (#[trigger] items[k]).held is File
                    && items[k].name == name;
            if k < n {
                assert(fi[k] == items[k] && fo[k] == outcomes[k]);
                let x = b.index_of(name);
                assert(r[x] == name);
            } else {
                assert(r[r.len() - 1] == name);
            }
        }
    }
}

/// What one more list adds to what was done: what was sent where the server took
/// it, and what was applied and written here where the card did.
pub proof fn law_a_run_counts_what_was_done(
    agreed: Map<Seq<char>, Set<i64>>,
    items: Seq<Work>,
    outcomes: Seq<Outcome>,
)
    requires
        items.len() == outcomes.len(),
        items.len() > 0,
    ensures
        ({
            let n = items.len() - 1;
            let b = favcarry::ran(agreed, items.take(n), outcomes.take(n));
            let r = favcarry::ran(agreed, items, outcomes);
            let w = items[n];
            &&& r.sent - b.sent == (if outcomes[n] is Refused {
                0
            } else {
                w.moves.len() - w.moves.filter(to_do_here()).len()
            })
            &&& r.applied_here - b.applied_here == (if went_through(outcomes[n]) {
                w.moves.filter(to_do_here()).len() as int
            } else {
                0
            })
            &&& r.files_written - b.files_written == (match outcomes[n] {
                Outcome::Here(Ok(files)) => files as int,
                _ => 0,
            })
        }),
{
    let n = items.len() - 1;
    assert(items.take(n) =~= items.drop_last());
    let w = items[n];
    lemma_kinds();
    lemma_picked(w.moves, to_star_there());
    lemma_picked(w.moves, to_unstar_there());
    lemma_picked(w.moves, to_do_here());
    lemma_here_and_there(w.moves);
}

proof fn lemma_here_and_there(moves: Seq<Move>)
    ensures
        moves.filter(to_star_there()).len() + moves.filter(to_unstar_there()).len() + moves.filter(
            to_do_here(),
        ).len() == moves.len(),
    decreases moves.len(),
{
    reveal(Seq::filter);
    if moves.len() > 0 {
        lemma_here_and_there(moves.drop_last());
    }
}

// ---------------------------------------------------------------------------
// On the card
// ---------------------------------------------------------------------------

/// Whether a game is the one of a number; of two with one number the later.
pub open spec fn is_card(known: Seq<OnCard>, id: i64, at: int) -> bool {
    &&& 0 <= at < known.len()
    &&& known[at].rom_id == id
    &&& forall|j: int| at < j < known.len() ==> (#[trigger] known[j]).rom_id != id
}

/// A number is that of a game with it; of two the later.
pub proof fn law_of_two_games_with_one_number_the_later_counts(known: Seq<OnCard>, id: i64)
    ensures
        favcarry::card_of(known, id) is None <==> forall|j: int|
            0 <= j < known.len() ==> (#[trigger] known[j]).rom_id != id,
        forall|at: int| #[trigger] is_card(known, id, at) ==> favcarry::card_of(known, id) == Some(known[at]),
    decreases known.len(),
{
    if known.len() > 0 {
        let front = known.drop_last();
        let n = known.len() - 1;
        law_of_two_games_with_one_number_the_later_counts(front, id);
        assert(known[n] == known.last());
        assert forall|j: int| 0 <= j < n implies #[trigger] known[j] == front[j] by {}
        if favcarry::card_of(known, id) is Some && known[n].rom_id != id {
            let j = choose|j: int| 0 <= j < front.len() && (#[trigger] front[j]).rom_id == id;
            assert(known[j].rom_id == id);
        }
        if favcarry::card_of(known, id) is None {
            assert forall|j: int| 0 <= j < known.len() implies (#[trigger] known[j]).rom_id != id by {
                if j < n {
                    assert(front[j].rom_id != id);
                }
            }
        }
        assert forall|at: int| #[trigger] is_card(known, id, at) implies favcarry::card_of(known, id) == Some(
            known[at],
        ) by {
            if at < n {
                assert(known[n].rom_id != id);
                assert forall|j: int| at < j < front.len() implies (#[trigger] front[j]).rom_id != id by {
                    assert(known[j] == front[j]);
                }
                assert(is_card(front, id, at));
            }
        }
    }
}

/// A game is put in or taken out on the card just where a move here is about it and
/// the card has it.
pub proof fn law_what_is_wanted_on_the_card(moves: Seq<Move>, known: Seq<OnCard>, k: OnCard, on: bool)
    ensures
        favcarry::wanted(moves, known).contains((k, on)) <==> exists|g: i64|
            #![trigger favcarry::card_of(known, g)]
            favcarry::card_of(known, g) == Some(k) && moves.contains(
                if on {
                    Move::StarHere(g)
                } else {
                    Move::UnstarHere(g)
                },
            ),
    decreases moves.len(),
{
    let ws = favcarry::wanted(moves, known);
    if moves.len() > 0 {
        let front = moves.drop_last();
        let m = moves.last();
        let n = moves.len() - 1;
        law_what_is_wanted_on_the_card(front, known, k, on);
        let before = favcarry::wanted(front, known);
        let g0 = favsync::game_of(m);
        assert(moves[n] == m);
        if ws.contains((k, on)) {
            if before.contains((k, on)) {
                let g = choose|g: i64|
                    #![trigger favcarry::card_of(known, g)]
                    favcarry::card_of(known, g) == Some(k) && front.contains(
                        if on {
                            Move::StarHere(g)
                        } else {
                            Move::UnstarHere(g)
                        },
                    );
                let x = if on {
                    Move::StarHere(g)
                } else {
                    Move::UnstarHere(g)
                };
                let i = front.index_of(x);
                assert(moves[i] == x);
            } else {
                let i = ws.index_of((k, on));
                assert(ws[i] == (k, on));
                if i < before.len() {
                    assert(before[i] == (k, on));
                }
                assert(favcarry::card_of(known, g0) == Some(k));
                let x = if on {
                    Move::StarHere(g0)
                } else {
                    Move::UnstarHere(g0)
                };
                assert(moves[n] == x);
            }
        }
        if exists|g: i64|
            #![trigger favcarry::card_of(known, g)]
            favcarry::card_of(known, g) == Some(k) && moves.contains(
                if on {
                    Move::StarHere(g)
                } else {
                    Move::UnstarHere(g)
                },
            ) {
            let g = choose|g: i64|
                #![trigger favcarry::card_of(known, g)]
                favcarry::card_of(known, g) == Some(k) && moves.contains(
                    if on {
                        Move::StarHere(g)
                    } else {
                        Move::UnstarHere(g)
                    },
                );
            let x = if on {
                Move::StarHere(g)
            } else {
                Move::UnstarHere(g)
            };
            let i = moves.index_of(x);
            assert(moves[i] == x);
            if i < n {
                assert(front[i] == x);
                assert(before.contains((k, on)));
                let y = before.index_of((k, on));
                assert(ws[y] == (k, on));
            } else {
                assert(ws[ws.len() - 1] == (k, on));
            }
        }
    }
}

/// A game that was put into a collection is in it, one that was taken out is not,
/// and every other path is in it just where it was.
pub proof fn law_the_last_word_on_a_path_stands(
    ws: Seq<(OnCard, bool)>,
    roms: Seq<char>,
    p: Seq<char>,
    before: bool,
)
    ensures
        forall|k: int|
            0 <= k < ws.len() && paths::components(favmap::whole_path((#[trigger] ws[k]).0, roms))
                == paths::components(p) && (forall|l: int|
                k < l < ws.len() ==> paths::components(favmap::whole_path((#[trigger] ws[l]).0, roms))
                    != paths::components(p)) ==> favcarry::held_after(ws, roms, p, before) == ws[k].1,
        (forall|l: int|
            0 <= l < ws.len() ==> paths::components(favmap::whole_path((#[trigger] ws[l]).0, roms))
                != paths::components(p)) ==> favcarry::held_after(ws, roms, p, before) == before,
    decreases ws.len(),
{
    if ws.len() > 0 {
        let front = ws.drop_last();
        let n = ws.len() - 1;
        law_the_last_word_on_a_path_stands(front, roms, p, before);
        assert(ws[n] == ws.last());
        assert forall|l: int| 0 <= l < n implies #[trigger] ws[l] == front[l] by {}
        assert forall|l: int| 0 <= l < n implies #[trigger] front[l] == ws[l] by {}
    }
}

/// A collection file that was written, once games were put in and taken out, lists
/// a path just where the last word on it says so, or, where there is none, where it
/// was listed before.
pub proof fn law_a_written_collection_lists_what_it_should(
    ls: Seq<Seq<char>>,
    before: Seq<Seq<char>>,
    ws: Seq<(OnCard, bool)>,
    roms: Seq<char>,
    after: Seq<Seq<char>>,
    path: Seq<char>,
    p: Seq<char>,
)
    requires
        lines::all_clean(ls),
        eslist::entries_read(ls, before),
        favcarry::edited(before, ws, roms, after),
        forall|i: int|
            0 <= i < after.len() && !eslist::lists(ls, #[trigger] after[i]) ==> eslist_laws::is_plain(after[i]),
        favcarry::file_written(path, ls, after).len() > 0,
    ensures
        favcarry::file_written(path, ls, after)[0].0 == path,
        eslist::lists(lines::lines(favcarry::file_written(path, ls, after)[0].1), p) == favcarry::held_after(
            ws,
            roms,
            p,
            eslist::lists(ls, p),
        ),
{
    eslist_laws::law_saved_collection_reads_back(ls, after, p);
    assert(path_set::holds_path(after, p) == favcarry::held_after(
        ws,
        roms,
        p,
        path_set::holds_path(before, p),
    ));
    assert(path_set::holds_path(before, p) == eslist::lists(ls, p)) by {
        if path_set::holds_path(before, p) {
            let i = choose|i: int| 0 <= i < before.len() && paths::components(#[trigger] before[i]) == paths::components(p);
            assert(eslist::writes(ls, before[i]));
            let k = choose|k: int| eslist::first_written(ls, before[i], k);
            assert(eslist::is_entry(ls[k]) && text::trim(ls[k]) == before[i]);
        }
        if eslist::lists(ls, p) {
            let k = choose|k: int|
                0 <= k < ls.len() && eslist::is_entry(#[trigger] ls[k]) && paths::components(text::trim(ls[k]))
                    == paths::components(p);
            assert(path_set::holds_path(before, text::trim(ls[k])));
        }
    }
}

/// Whether a wanted game is in a folder.
pub open spec fn in_this_folder(folder: Seq<char>) -> spec_fn((OnCard, bool)) -> bool {
    |w: (OnCard, bool)| w.0.folder == folder
}

/// The files to star and unstar in a folder are those of the wanted games in it, in
/// their order, each by its path inside the folder.
pub proof fn law_a_folder_gets_just_its_own_games(ws: Seq<(OnCard, bool)>, folder: Seq<char>)
    ensures
        favcarry::wanted_in(ws, folder).len() == ws.filter(in_this_folder(folder)).len(),
        forall|k: int|
            0 <= k < ws.filter(in_this_folder(folder)).len() ==> {
                let w = ws.filter(in_this_folder(folder))[k];
                let f = #[trigger] favcarry::wanted_in(ws, folder)[k];
                &&& f.1 == w.1
                &&& w.0.rel_dir.len() == 0 ==> f.0 == w.0.file
                &&& w.0.rel_dir.len() > 0 ==> f.0 == w.0.rel_dir + "/"@ + w.0.file
            },
    decreases ws.len(),
{
    reveal(Seq::filter);
    if ws.len() > 0 {
        law_a_folder_gets_just_its_own_games(ws.drop_last(), folder);
    }
}

/// Starring one game of a list after some others is starring it in the list that
/// those left; a list counts as changed once some star moved.
pub proof fn law_stars_are_set_one_after_the_other(t: Seq<char>, files: Seq<(Seq<char>, bool)>, more: Seq<(Seq<char>, bool)>)
    ensures
        favcarry::starred(t, files + more).0 == favcarry::starred(favcarry::starred(t, files).0, more).0,
        favcarry::starred(t, files + more).1 == (favcarry::starred(t, files).1 || favcarry::starred(
            favcarry::starred(t, files).0,
            more,
        ).1),
    decreases more.len(),
{
    if more.len() == 0 {
        assert(files + more =~= files);
    } else {
        assert((files + more).drop_last() =~= files + more.drop_last());
        law_stars_are_set_one_after_the_other(t, files, more.drop_last());
    }
}

/// One game is starred or unstarred as a gamelist does it, and nothing else.
pub proof fn law_one_star_is_set_as_the_list_does_it(t: Seq<char>, file: Seq<char>, on: bool)
    ensures
        favcarry::starred(t, seq![(file, on)]) == (match gamelist::star(t, file, on) {
            Some(after) => (after, true),
            None => (t, false),
        }),
{
    reveal_with_fuel(favcarry::starred, 2);
    let one = seq![(file, on)];
    assert(one.drop_last() =~= Seq::empty());
    assert(one.last() == (file, on));
}

/// Whether some writes have one to a path.
pub open spec fn writes_to(out: Seq<(Seq<char>, Seq<char>)>, path: Seq<char>, t: Seq<char>) -> bool {
    exists|k: int| 0 <= k < out.len() && #[trigger] out[k] == (path, t)
}

/// Where the gamelist of a folder is.
pub open spec fn list_at(roms: Seq<char>, folder: Seq<char>) -> Seq<char> {
    paths::joined(paths::joined(roms, folder), "gamelist.xml"@)
}

/// What a folder's gamelist becomes: none where nothing moves in one that is there.
pub open spec fn becomes(
    s: disk::Seen,
    files: Seq<(Seq<char>, bool)>,
) -> Option<Seq<char>> {
    match s {
        disk::Seen::Missing => Some(
            favcarry::starred("<?xml version=\"1.0\"?>\n<gameList>\n</gameList>\n"@, files).0,
        ),
        disk::Seen::Bytes(b) => {
            let after = favcarry::starred(vstd::utf8::decode_utf8(b), files);
            if after.1 {
                Some(after.0)
            } else {
                None
            }
        },
        disk::Seen::Unreadable { .. } => None,
    }
}

/// Whether what was found at a path is a text, or nothing at all.
pub open spec fn can_be_read(s: disk::Seen) -> bool {
    match s {
        disk::Seen::Missing => true,
        disk::Seen::Bytes(b) => vstd::utf8::valid_utf8(b),
        disk::Seen::Unreadable { .. } => false,
    }
}

/// The gamelists of some folders are written one after the other: each in which
/// something moves, or that was not there, with its own games set; and nothing else
/// is written. It stops just where one of them cannot be read.
pub proof fn law_every_gamelist_with_a_move_is_written(
    d: spec_fn(Seq<char>) -> disk::Seen,
    roms: Seq<char>,
    folders: Seq<Seq<char>>,
    ws: Seq<(OnCard, bool)>,
)
    ensures
        ({
            let (out, stopped) = favcarry::folder_writes(d, roms, folders, ws);
            &&& stopped is None <==> forall|i: int|
                0 <= i < folders.len() ==> can_be_read(d(list_at(roms, #[trigger] folders[i])))
            &&& stopped is None ==> forall|i: int, t: Seq<char>|
                0 <= i < folders.len() && becomes(
                    d(list_at(roms, #[trigger] folders[i])),
                    favcarry::wanted_in(ws, folders[i]),
                ) == Some(t) ==> #[trigger] writes_to(out, list_at(roms, folders[i]), t)
            &&& forall|k: int| 0 <= k < out.len() ==> is_write_of(d, roms, folders, ws, #[trigger] out[k])
            &&& out.len() <= folders.len()
        }),
    decreases folders.len(),
{
    if folders.len() > 0 {
        let front = folders.drop_last();
        let n = folders.len() - 1;
        let last = folders.last();
        law_every_gamelist_with_a_move_is_written(d, roms, front, ws);
        let (before, halted) = favcarry::folder_writes(d, roms, front, ws);
        let (out, stopped) = favcarry::folder_writes(d, roms, folders, ws);
        let path = list_at(roms, last);
        let files = favcarry::wanted_in(ws, last);
        assert(folders[n] == last);
        assert(path == favmap::gamelist_path(roms, last));
        let one = favcarry::folder_write(d(path), path, files);
        assert(one is Ok ==> one->Ok_0 == (match becomes(d(path), files) {
            Some(t) => Some((path, t)),
            None => None,
        }));
        assert(one is Ok <==> can_be_read(d(path)));
        assert forall|i: int| 0 <= i < n implies #[trigger] folders[i] == front[i] by {}
        if stopped is None {
            assert forall|i: int| 0 <= i < folders.len() implies can_be_read(
                d(list_at(roms, #[trigger] folders[i])),
            ) by {
                if i < n {
                    assert(can_be_read(d(list_at(roms, front[i]))));
                }
            }
            assert forall|i: int, t: Seq<char>|
                0 <= i < folders.len() && becomes(
                    d(list_at(roms, #[trigger] folders[i])),
                    favcarry::wanted_in(ws, folders[i]),
                ) == Some(t) implies #[trigger] writes_to(out, list_at(roms, folders[i]), t) by {
                if i < n {
                    assert(writes_to(before, list_at(roms, front[i]), t));
                    let k = choose|k: int|
                        0 <= k < before.len() && #[trigger] before[k] == (list_at(roms, front[i]), t);
                    assert(out[k] == before[k]);
                } else {
                    assert(out[out.len() - 1] == (path, t));
                }
            }
        } else if halted is None {
            assert(!can_be_read(d(list_at(roms, folders[n]))));
        } else {
            let i = choose|i: int| 0 <= i < front.len() && !can_be_read(d(list_at(roms, #[trigger] front[i])));
            assert(folders[i] == front[i]);
        }
        assert forall|k: int| 0 <= k < out.len() implies is_write_of(d, roms, folders, ws, #[trigger] out[k]) by {
            if k < before.len() {
                assert(out[k] == before[k]);
                let i = choose|i: int|
                    0 <= i < front.len() && before[k].0 == list_at(roms, #[trigger] front[i]) && becomes(
                        d(list_at(roms, front[i])),
                        favcarry::wanted_in(ws, front[i]),
                    ) == Some(before[k].1);
                assert(folders[i] == front[i]);
            } else {
                assert(out[k].0 == list_at(roms, folders[n]));
            }
        }
    }
}

/// Whether a write is what some folder's gamelist becomes.
pub open spec fn is_write_of(
    d: spec_fn(Seq<char>) -> disk::Seen,
    roms: Seq<char>,
    folders: Seq<Seq<char>>,
    ws: Seq<(OnCard, bool)>,
    w: (Seq<char>, Seq<char>),
) -> bool {
    exists|i: int|
        0 <= i < folders.len() && w.0 == list_at(roms, #[trigger] folders[i]) && becomes(
            d(list_at(roms, folders[i])),
            favcarry::wanted_in(ws, folders[i]),
        ) == Some(w.1)
}

/// Whether an item is held as a file.
pub open spec fn held_as_file() -> spec_fn(Item) -> bool {
    |i: Item| i.held@ is File
}

/// The files of a plan are those of the items that are held as files, in their
/// order.
pub proof fn law_the_files_of_a_plan_are_those_of_its_items(items: Seq<Item>)
    ensures
        favrun::file_names(favrun::works(items)).len() == items.filter(held_as_file()).len(),
        forall|k: int|
            0 <= k < items.filter(held_as_file()).len() ==> #[trigger] favrun::file_names(favrun::works(items))[k]
                == items.filter(held_as_file())[k].name@,
    decreases items.len(),
{
    reveal(Seq::filter);
    if items.len() > 0 {
        law_the_files_of_a_plan_are_those_of_its_items(items.drop_last());
        assert(favrun::works(items).drop_last() =~= favrun::works(items.drop_last()));
        assert(favrun::works(items).last() == items.last()@);
    }
}

/// What an item held as stars writes on the card: nothing where no move here is
/// about a game on it; and otherwise the gamelists of the folders of those games,
/// and no others, up to the first that cannot be read.
pub proof fn law_the_stars_of_an_item_reach_the_gamelists(
    disk: &Disk,
    es: &EsPaths,
    known: &Vec<Known>,
    item: &Item,
    r: HereWork,
)
    requires
        call_ensures(favcarry::apply_here, (disk, es, known, item), r),
        item.held@ is Stars,
    ensures
        ({
            let ws = favcarry::wanted(item.moves@, favmap::cards(known@));
            &&& ws.len() == 0 ==> r.writes@.len() == 0 && r.stopped is None
            &&& r.stopped is None <==> forall|i: int|
                0 <= i < ws.len() ==> can_be_read(disk.at(list_at(es.roms@, (#[trigger] ws[i]).0.folder)))
            &&& r.stopped is None ==> forall|i: int, t: Seq<char>|
                0 <= i < ws.len() && becomes(
                    disk.at(list_at(es.roms@, (#[trigger] ws[i]).0.folder)),
                    favcarry::wanted_in(ws, ws[i].0.folder),
                ) == Some(t) ==> #[trigger] writes_to(
                    favcarry::writes(r.writes@),
                    list_at(es.roms@, ws[i].0.folder),
                    t,
                )
        }),
{
    let ws = favcarry::wanted(item.moves@, favmap::cards(known@));
    let fs = ws.map_values(|w: (OnCard, bool)| w.0.folder);
    let folders = favcarry::wanted_folders(ws);
    order::lemma_sorted(fs);
    law_every_gamelist_with_a_move_is_written(disk.all(), es.roms@, folders, ws);
    assert(favcarry::writes(r.writes@).len() == r.writes@.len());
    assert forall|i: int| 0 <= i < ws.len() implies folders.contains((#[trigger] ws[i]).0.folder) by {
        assert(fs[i] == ws[i].0.folder);
        assert(fs.to_set().contains(fs[i]));
        assert(folders.to_set().contains(fs[i]));
    }
    assert forall|k: int| 0 <= k < folders.len() implies exists|i: int|
        0 <= i < ws.len() && (#[trigger] ws[i]).0.folder == #[trigger] folders[k] by {
        assert(folders.to_set().contains(folders[k]));
        assert(fs.to_set().contains(folders[k]));
        let i = fs.index_of(folders[k]);
        assert(ws[i].0.folder == folders[k]);
    }
    if ws.len() > 0 {
        if r.stopped is None {
            assert forall|i: int| 0 <= i < ws.len() implies can_be_read(
                disk.at(list_at(es.roms@, (#[trigger] ws[i]).0.folder)),
            ) by {
                let k = folders.index_of(ws[i].0.folder);
                assert(can_be_read(disk.all()(list_at(es.roms@, folders[k]))));
            }
            assert forall|i: int, t: Seq<char>|
                0 <= i < ws.len() && becomes(
                    disk.at(list_at(es.roms@, (#[trigger] ws[i]).0.folder)),
                    favcarry::wanted_in(ws, ws[i].0.folder),
                ) == Some(t) implies #[trigger] writes_to(
                favcarry::writes(r.writes@),
                list_at(es.roms@, ws[i].0.folder),
                t,
            ) by {
                let k = folders.index_of(ws[i].0.folder);
                assert(folders[k] == ws[i].0.folder);
                assert(disk.all()(list_at(es.roms@, folders[k])) == disk.at(list_at(es.roms@, folders[k])));
            }
        } else {
            let k = choose|k: int|
                0 <= k < folders.len() && !can_be_read(disk.all()(list_at(es.roms@, #[trigger] folders[k])));
            let i = choose|i: int| 0 <= i < ws.len() && (#[trigger] ws[i]).0.folder == folders[k];
            assert(!can_be_read(disk.at(list_at(es.roms@, ws[i].0.folder))));
        }
    }
}

} // verus!
