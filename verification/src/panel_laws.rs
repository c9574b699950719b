//! What a panel shows and what a launch does, row by row and step by step.

use vstd::prelude::*;
use crate::desktop;
use crate::desktop::{Art, Kinds, Launch, Media};
use crate::failure::Failure;
use crate::favrun::Plan;
use crate::flows;
use crate::flows::{Event, Halted, Step};
use crate::model;
use crate::model::{Kind, Page, Row};
use crate::picks;
use crate::sync;
use crate::sync::Stage;
use crate::text;
use crate::worker;
use crate::worker::{Message, SaveConflict};

verus! {

// ---------------------------------------------------------------------------
// Rows
// ---------------------------------------------------------------------------

/// A dial shows the option that was chosen; where none was, the one the device is
/// at; and where that is none of them, that it changed. Anything else shows its
/// value.
pub proof fn law_a_row_shows_what_was_chosen(row: &Row, r: String)
    requires
        call_ensures(Row::value, (row,), r),
    ensures
        match row.kind {
            Kind::Fact { value } => r@ == value@,
            Kind::Action { value } => r@ == value@,
            Kind::Dial { options, live, chosen } => {
                if chosen is Some && chosen.unwrap() < options@.len() {
                    r@ == options@[chosen.unwrap() as int]@
                } else if live is Some && live.unwrap() < options@.len() {
                    r@ == options@[live.unwrap() as int]@
                } else {
                    r@ == "changed"@
                }
            },
        },
{
    if let Kind::Dial { options, live, chosen } = row.kind {
        assert(text::texts(options@).len() == options@.len());
        if let Some(n) = chosen {
            if n < options@.len() {
                assert(text::texts(options@)[n as int] == options@[n as int]@);
            }
        }
        if let Some(n) = live {
            if n < options@.len() {
                assert(text::texts(options@)[n as int] == options@[n as int]@);
            }
        }
    }
}

/// Whether a row waits for a change: an option was chosen, and not the one the
/// device is at.
pub open spec fn waits() -> spec_fn(Row) -> bool {
    |row: Row|
        match row.kind {
            Kind::Dial { live, chosen, .. } => chosen is Some && chosen != live,
            _ => false,
        }
}

/// The rows of a page that wait for a change are those whose choice is not what the
/// device is at, in their order.
pub proof fn law_a_page_knows_the_rows_that_wait(page: &Page, r: Vec<&Row>)
    requires
        call_ensures(Page::pending, (page,), r),
    ensures
        r@.len() == page.rows@.filter(waits()).len(),
        forall|k: int| 0 <= k < r@.len() ==> *(#[trigger] r@[k]) == page.rows@.filter(waits())[k],
{
    let f = |x: Row| model::queued(x@.kind);
    assert(f =~= waits());
    let g = |x: &Row| *x;
    assert(r@.map_values(g) == page.rows@.filter(waits()));
    assert forall|k: int| 0 <= k < r@.len() implies *(#[trigger] r@[k]) == page.rows@.filter(waits())[k] by {
        assert(r@.map_values(g)[k] == g(r@[k]));
    }
}

proof fn lemma_first_selectable(rows: Seq<model::Line>, from: int)
    requires
        0 <= from <= rows.len(),
    ensures
        ({
            let c = model::first_selectable(rows, from);
            &&& (exists|k: int| from <= k < rows.len() && !((#[trigger] rows[k]).kind is Fact)) ==> from <= c
                < rows.len() && !(rows[c].kind is Fact) && forall|j: int|
                from <= j < c ==> (#[trigger] rows[j]).kind is Fact
            &&& (forall|k: int| from <= k < rows.len() ==> (#[trigger] rows[k]).kind is Fact) ==> c == 0
        }),
    decreases rows.len() - from,
{
    if from < rows.len() && rows[from].kind is Fact {
        lemma_first_selectable(rows, from + 1);
    }
}

/// A page opens on the first row that is not just to be read, and on the first of
/// all where there is none.
pub proof fn law_a_page_opens_on_the_first_row_to_act_on(rows: Vec<Row>, r: Page)
    requires
        call_ensures(Page::new, (rows,), r),
    ensures
        r.rows == rows,
        forall|c: int|
            0 <= c < rows@.len() && !((#[trigger] rows@[c]).kind is Fact) && (forall|j: int|
                0 <= j < c ==> (#[trigger] rows@[j]).kind is Fact) ==> r.cursor == c,
        (forall|k: int| 0 <= k < rows@.len() ==> (#[trigger] rows@[k]).kind is Fact) ==> r.cursor == 0,
{
    let all = model::rows_of(rows@);
    lemma_first_selectable(all, 0);
    assert forall|k: int| 0 <= k < rows@.len() implies (#[trigger] rows@[k]).kind is Fact == all[k].kind is Fact by {
        assert(all[k] == rows@[k]@);
    }
    let cur = model::first_selectable(all, 0);
    assert forall|c: int|
        0 <= c < rows@.len() && !((#[trigger] rows@[c]).kind is Fact) && (forall|j: int|
            0 <= j < c ==> (#[trigger] rows@[j]).kind is Fact) implies r.cursor == c by {
        assert(!(all[c].kind is Fact));
        if cur < c {
            assert(rows@[cur].kind is Fact);
        }
        if c < cur {
            assert(all[c].kind is Fact);
        }
    }
    if forall|k: int| 0 <= k < rows@.len() ==> (#[trigger] rows@[k]).kind is Fact {
        assert forall|k: int| 0 <= k < all.len() implies (#[trigger] all[k]).kind is Fact by {
            assert(rows@[k].kind is Fact);
        }
    }
}

// ---------------------------------------------------------------------------
// What the worker said
// ---------------------------------------------------------------------------

/// Whether a message says where a sync stands.
pub open spec fn says_where(m: Message) -> bool {
    !(m is Stars) && !(m is Report)
}

/// The last word on where a sync stands is what is shown, and the conflicts that are
/// held are those of the last run that finished.
pub proof fn law_the_last_word_is_shown(s: Stage, held: Vec<SaveConflict>, ms: Seq<Message>, k: int)
    requires
        0 <= k < ms.len(),
    ensures
        says_where(ms[k]) && (forall|l: int| k < l < ms.len() ==> !says_where(#[trigger] ms[l])) ==> match ms[k] {
            Message::Note(note) => worker::stage_folded(s, ms) == (Stage::Asking { note }),
            Message::Plan(review) => worker::stage_folded(s, ms) == Stage::Ready(*review),
            Message::Failed(why) => worker::stage_folded(s, ms) == Stage::Failed(why),
            Message::Finished { moved, note, conflicts } => worker::stage_folded(s, ms) matches Stage::Done {
                moved: m,
                conflicts: c,
                note: n,
            } && m == moved && n == note && (conflicts@.len() <= usize::MAX ==> c == conflicts@.len()),
            _ => false,
        },
        ms[k] matches Message::Finished { conflicts, .. } ==> (forall|l: int|
            k < l < ms.len() ==> !(#[trigger] ms[l] is Finished)) ==> worker::held_folded(held, ms) == conflicts,
    decreases ms.len(),
{
    let n = ms.len() - 1;
    let front = ms.drop_last();
    assert(ms[n] == ms.last());
    if k < n {
        law_the_last_word_is_shown(s, held, front, k);
        assert(front[k] == ms[k]);
        if forall|l: int| k < l < ms.len() ==> !says_where(#[trigger] ms[l]) {
            assert(!says_where(ms[n]));
            assert forall|l: int| k < l < front.len() implies !says_where(#[trigger] front[l]) by {
                assert(ms[l] == front[l]);
            }
        }
        if forall|l: int| k < l < ms.len() ==> !(#[trigger] ms[l] is Finished) {
            assert(!(ms[n] is Finished));
            assert forall|l: int| k < l < front.len() implies !(#[trigger] front[l] is Finished) by {
                assert(ms[l] == front[l]);
            }
        }
    }
}

/// Whether a conflict could not be settled.
pub open spec fn not_settled() -> spec_fn((String, Result<(), Failure>)) -> bool {
    |d: (String, Result<(), Failure>)| d.1 is Err
}

/// There is one line for each conflict that could not be settled, which names it
/// first; in their order, and none else.
pub proof fn law_every_conflict_that_stays_is_named(done: Seq<(String, Result<(), Failure>)>)
    ensures
        worker::problems_in(done).len() == done.filter(not_settled()).len(),
        forall|k: int|
            0 <= k < done.filter(not_settled()).len() ==> text::starts(
                #[trigger] worker::problems_in(done)[k],
                done.filter(not_settled())[k].0@ + ": "@,
            ),
    decreases done.len(),
{
    reveal(Seq::filter);
    if done.len() > 0 {
        law_every_conflict_that_stays_is_named(done.drop_last());
        let last = done.last();
        if let Err(e) = last.1 {
            let head = last.0@ + ": "@;
            let line = last.0@ + ": "@ + text::join(e@, ": "@);
            assert(line.take(head.len() as int) =~= head);
        }
    }
}

// ---------------------------------------------------------------------------
// Launching
// ---------------------------------------------------------------------------

/// A launch that syncs plays only after the saves were seen to, and sees to them
/// again when it was played; one that does not sync never does. Shaders are looked
/// for only where they are wanted, the BIOS files before the launch is planned, and
/// nothing comes after the end.
pub proof fn law_a_launch_sees_to_the_saves_round_the_game(e: Event, shaders: bool, skip_sync: bool)
    ensures
        ({
            let next = flows::step_after(e, shaders, skip_sync);
            &&& skip_sync ==> next != Step::SavesBefore && next != Step::SavesAfter
            &&& !skip_sync && next == Step::Play ==> e is SavesBefore
            &&& !skip_sync && e is Planned ==> next == Step::SavesBefore
            &&& !skip_sync && e is Played ==> next == Step::SavesAfter
            &&& skip_sync && e is Planned ==> next == Step::Play
            &&& skip_sync && e is Played ==> next == Step::Finished
            &&& next == Step::Shaders <==> shaders && e is Core
            &&& next == Step::Bios <==> (e is Core && !shaders) || e is Shaders
            &&& next == Step::Plan <==> e is Bios
            &&& next == Step::Finished ==> e is NotPlayed || e is SavesAfter || (skip_sync && e is Played)
            &&& e is NotPlayed || e is SavesAfter ==> next == Step::Finished
        }),
{
}

/// Whether a required file is not there.
pub open spec fn not_there() -> spec_fn((String, bool)) -> bool {
    |f: (String, bool)| !f.1
}

proof fn lemma_missing_files(required: Seq<(String, bool)>)
    ensures
        desktop::missing_files(required).len() == required.filter(not_there()).len(),
        forall|k: int|
            0 <= k < required.filter(not_there()).len() ==> #[trigger] desktop::missing_files(required)[k]
                == required.filter(not_there())[k].0@,
    decreases required.len(),
{
    reveal(Seq::filter);
    if required.len() > 0 {
        lemma_missing_files(required.drop_last());
    }
}

/// A launch stops on BIOS files just where they could not be fetched, some required
/// one is not there and nobody chose to play anyway; on saves just where they could
/// not be synced or changed on both sides; and where it could not be planned or
/// played.
pub proof fn law_a_launch_stops_only_on_what_it_cannot_do_without(l: Launch, e: Event)
    ensures
        ({
            let halt = flows::halts_on(l, e);
            &&& e is Core || e is Shaders || e is Played || e is SavesAfter ==> halt is None
            &&& e matches Event::Bios { fetched, required } ==> (halt is Some <==> fetched is Err && !l.skip_sync
                && exists|k: int| 0 <= k < required@.len() && !(#[trigger] required@[k]).1)
            &&& e matches Event::Planned(came) ==> (halt is Some <==> came is Err)
            &&& e matches Event::SavesBefore(s) ==> {
                &&& s.failed is Some ==> halt is Some && halt->0 is SaveOffline
                &&& s.failed is None && s.conflicts@.len() > 0 ==> halt == Some(Halted::SaveConflict(s.conflicts))
                &&& s.failed is None && s.conflicts@.len() == 0 ==> halt is None
            }
            &&& e is NotPlayed ==> halt is Some && halt->0 is Failed
        }),
{
    if let Event::Bios { fetched, required } = e {
        lemma_missing_files(required@);
        let at = picks::lemma_filter_places(required@, not_there());
        if exists|k: int| 0 <= k < required@.len() && !(#[trigger] required@[k]).1 {
            let k = choose|k: int| 0 <= k < required@.len() && !(#[trigger] required@[k]).1;
            assert(not_there()(required@[k]));
            assert(at.contains(k));
        }
        if required@.filter(not_there()).len() > 0 {
            assert(not_there()(required@[at[0]]));
            assert(!required@[at[0]].1);
        }
    }
}

/// The required files that are named as missing are just those that are not there,
/// in their order.
pub proof fn law_the_missing_files_are_those_not_there(required: Seq<(String, bool)>)
    ensures
        desktop::missing_files(required).len() == required.filter(not_there()).len(),
        forall|k: int|
            0 <= k < required.filter(not_there()).len() ==> #[trigger] desktop::missing_files(required)[k]
                == required.filter(not_there())[k].0@,
{
    lemma_missing_files(required);
}

/// Whether a message says where the stars stand.
pub open spec fn says_of_stars(m: Message) -> bool {
    !(m is Plan) && !(m is Report)
}

/// The last word on the stars is what is shown of them; and the plan that is held is
/// the last that came, unless a run finished after it.
pub proof fn law_the_last_word_on_the_stars_is_shown(
    s: sync::Standing,
    held: Option<Plan>,
    ms: Seq<Message>,
    k: int,
)
    requires
        0 <= k < ms.len(),
    ensures
        says_of_stars(ms[k]) && (forall|l: int| k < l < ms.len() ==> !says_of_stars(#[trigger] ms[l]))
            ==> match ms[k] {
            Message::Note(note) => worker::stars_folded(s, ms) == sync::Standing::Asking(note@),
            Message::Stars(_) => worker::stars_folded(s, ms) is Ready,
            Message::Failed(why) => worker::stars_folded(s, ms) == sync::Standing::Failed(why@),
            Message::Finished { note, .. } => worker::stars_folded(s, ms) == sync::Standing::Done(note@),
            _ => false,
        },
        ms[k] matches Message::Stars(plan) ==> (forall|l: int|
            k < l < ms.len() ==> !(#[trigger] ms[l] is Stars) && !(ms[l] is Finished)) ==> worker::plan_folded(held, ms)
            == Some(*plan),
        ms[k] is Finished ==> (forall|l: int| k < l < ms.len() ==> !(#[trigger] ms[l] is Stars))
            ==> worker::plan_folded(held, ms) is None,
    decreases ms.len(),
{
    let n = ms.len() - 1;
    let front = ms.drop_last();
    assert(ms[n] == ms.last());
    if k < n {
        law_the_last_word_on_the_stars_is_shown(s, held, front, k);
        assert(front[k] == ms[k]);
        if forall|l: int| k < l < ms.len() ==> !says_of_stars(#[trigger] ms[l]) {
            assert(!says_of_stars(ms[n]));
            assert forall|l: int| k < l < front.len() implies !says_of_stars(#[trigger] front[l]) by {
                assert(ms[l] == front[l]);
            }
        }
        if forall|l: int| k < l < ms.len() ==> !(#[trigger] ms[l] is Stars) && !(ms[l] is Finished) {
            assert(!(ms[n] is Stars) && !(ms[n] is Finished));
            assert forall|l: int| k < l < front.len() implies !(#[trigger] front[l] is Stars) && !(
            front[l] is Finished) by {
                assert(ms[l] == front[l]);
            }
        }
        if forall|l: int| k < l < ms.len() ==> !(#[trigger] ms[l] is Stars) {
            assert(!(ms[n] is Stars));
            assert forall|l: int| k < l < front.len() implies !(#[trigger] front[l] is Stars) by {
                assert(ms[l] == front[l]);
            }
        }
    }
}

/// Whether a kind of media is anything but the videos.
pub open spec fn but_videos(videos: Seq<char>) -> spec_fn(Seq<char>) -> bool {
    |kind: Seq<char>| kind != videos
}

proof fn lemma_no_videos(kinds: Seq<Seq<char>>, videos: Seq<char>)
    ensures
        desktop::no_videos(kinds, videos) == kinds.filter(but_videos(videos)).map_values(
            |kind: Seq<char>| (false, kind),
        ),
    decreases kinds.len(),
{
    reveal(Seq::filter);
    let f = |kind: Seq<char>| (false, kind);
    if kinds.len() > 0 {
        lemma_no_videos(kinds.drop_last(), videos);
        let before = kinds.drop_last().filter(but_videos(videos));
        if kinds.last() != videos {
            assert(before.push(kinds.last()).map_values(f) =~= before.map_values(f).push((false, kinds.last())));
        }
    } else {
        assert(desktop::no_videos(kinds, videos) =~= kinds.filter(but_videos(videos)).map_values(f));
    }
}

/// The media that is wanted for a game: the two pictures of the list unless no art
/// is, every kind but the videos where all of it is, the videos just where they are
/// wanted, and the manuals just where they are.
pub proof fn law_the_media_wanted_is_what_was_asked_for(
    art: Art,
    videos: bool,
    manuals: bool,
    kinds: &Kinds,
    r: Vec<Media>,
)
    requires
        call_ensures(desktop::media_wanted, (art, videos, manuals, kinds), r),
    ensures
        ({
            let n: int = if art == Art::Nothing {
                0
            } else {
                2
            };
            let rest = text::texts(kinds.all@).filter(but_videos(kinds.videos@));
            let m: int = if art == Art::Full {
                rest.len() as int
            } else {
                0
            };
            let v: int = if videos {
                1
            } else {
                0
            };
            &&& r@.len() == n + m + v + (if manuals {
                1int
            } else {
                0
            })
            &&& n == 2 ==> r@[0].art && r@[0].kind@ == kinds.list_art@ && r@[1].art && r@[1].kind@ == kinds.mixed@
            &&& forall|k: int| 0 <= k < m ==> !(#[trigger] r@[n + k]).art && r@[n + k].kind@ == rest[k]
            &&& videos ==> !r@[n + m].art && r@[n + m].kind@ == kinds.videos@
            &&& manuals ==> !r@[n + m + v].art && r@[n + m + v].kind@ == "manuals"@
        }),
{
    let rest = text::texts(kinds.all@).filter(but_videos(kinds.videos@));
    lemma_no_videos(text::texts(kinds.all@), kinds.videos@);
    let all = desktop::media_of(r@);
    assert(all.len() == r@.len());
    assert forall|k: int| 0 <= k < r@.len() implies all[k] == ((#[trigger] r@[k]).art, r@[k].kind@) by {}
    if art != Art::Nothing {
        assert(all[0] == (true, kinds.list_art@) && all[1] == (true, kinds.mixed@));
    }
}

} // verus!
