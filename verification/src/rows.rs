//! Turning the catalogue into something with a cursor in it.
//!
//! The patches tab is built by reading the device, not by declaring what ought to
//! be true. A row opens at what the device is at, so one that somebody else set up,
//! or that has just taken an update, tells where it actually stands.

use vstd::prelude::*;
use crate::disk::Disk;
use crate::model;
use crate::model::{Page, Row};
use crate::patch;
use crate::patch::{Patch, State};
use crate::text;

verus! {

/// What refreshing the game list does.
pub const ABOUT_REFRESH: &'static str = "Rebuilds this device's list of your games from the server. Saves are matched to games through it, so a game missing from the list is a save that cannot sync. Do this first on a new device, and again after games are added to the server. The old list is kept until the new one is complete.";

/// What looking at a sync does.
pub const ABOUT_CHECK: &'static str = "Scans the saves on this card, hands the list to the server, and shows what it would do — which way each save would move, and where both sides changed since the last sync. Nothing is transferred until you accept the plan.";

/// What settling conflicts does.
pub const ABOUT_CONFLICTS: &'static str = "Saves changed here and on the server since they last agreed. Nothing was written for these. Pick a side for each: ← keeps this device's, → keeps the server's. Whichever copy is replaced is backed up first.";

/// What syncing the stars does.
pub const ABOUT_STARS: &'static str = "Matches the games you have starred here against the collections on the server, both ways. A star added on the web arrives here; one added here is sent back. What was agreed last time is remembered, so taking a star off travels too instead of coming straight back. Shows what it would do before it does anything.";

/// A row that is something to read.
pub open spec fn fact(id: Seq<char>, title: Seq<char>, value: Seq<char>) -> model::Line {
    model::Line { id, title, detail: Seq::empty(), kind: model::Purpose::Fact(value) }
}

/// A row that is something to set going.
pub open spec fn action(id: Seq<char>, title: Seq<char>, detail: Seq<char>, value: Seq<char>) -> model::Line {
    model::Line { id, title, detail, kind: model::Purpose::Action(value) }
}

/// The rows of the sync tab.
pub open spec fn sync_rows(server: Option<Seq<char>>, status: Seq<char>, stars: Seq<char>) -> Seq<model::Line> {
    seq![
        fact("server"@, "Server"@, match server {
            Some(s) => s,
            None => "not configured"@,
        }),
        fact("status"@, "Status"@, status),
        action("refresh"@, "Refresh the game list"@, ABOUT_REFRESH@, "—"@),
        action("check"@, "See what would sync"@, ABOUT_CHECK@, "—"@),
        action("conflicts"@, "Settle conflicts"@, ABOUT_CONFLICTS@, "none"@),
        action("stars"@, "Sync favourites and collections"@, ABOUT_STARS@, stars),
    ]
}

/// The sync tab: status you can read at the top, and then the things you can set
/// going.
///
/// One action, not a push button and a pull button: the server decides the
/// direction for each save. And nothing that takes games offline, which is too
/// heavy for the device.
pub fn sync(server: Option<&str>, status: &str, stars: &str) -> (r: Page)
    ensures
        model::rows_of(r.rows@) == sync_rows(text::opt_str(server), status@, stars@),
        r.cursor == 2,
{
    let at = match server {
        Some(s) => s,
        None => "not configured",
    };
    let mut rows: Vec<Row> = Vec::new();
    rows.push(Row::fact("server", "Server", at));
    rows.push(Row::fact("status", "Status", status));
    rows.push(Row::action("refresh", "Refresh the game list", ABOUT_REFRESH, "—"));
    rows.push(Row::action("check", "See what would sync", ABOUT_CHECK, "—"));
    rows.push(Row::action("conflicts", "Settle conflicts", ABOUT_CONFLICTS, "none"));
    rows.push(Row::action("stars", "Sync favourites and collections", ABOUT_STARS, stars));
    proof {
        let all = model::rows_of(rows@);
        assert(all =~= sync_rows(text::opt_str(server), status@, stars@));
        reveal_with_fuel(model::first_selectable, 4);
        assert(all[0].kind is Fact && all[1].kind is Fact && all[2].kind is Action);
    }
    Page::new(rows)
}

/// Whether a row is that of a patch, at what the device is at.
pub open spec fn is_row_of(line: model::Line, p: Patch, disk: Disk) -> bool {
    &&& line.id == p.id@
    &&& line.title == p.title@
    &&& line.detail == p.detail@
    &&& match line.kind {
        model::Purpose::Dial { options, live, chosen } => {
            &&& options == p.choices@.map_values(|c: patch::Choice| c.name@)
            &&& chosen is None
            &&& match live {
                Some(i) => patch::state_in(p.choices@, disk.all(), State::At(i)),
                None => patch::state_in(p.choices@, disk.all(), State::Changed),
            }
        },
        _ => false,
    }
}

/// The patches tab, read back off the device.
///
/// `knulli` is which OS this is, as a fact at the top: a patch is a bet about files
/// KNULLI ships, so the version belongs beside them.
pub fn patches(list: &Vec<Patch>, knulli: &str, disk: &Disk) -> (r: Page)
    ensures
        r.rows@.len() == list@.len() + 1,
        r.rows@[0]@ == fact("knulli"@, "KNULLI"@, knulli@),
        forall|i: int| 0 <= i < list@.len() ==> is_row_of(r.rows@[i + 1]@, #[trigger] list@[i], *disk),
        r.cursor == (if list@.len() > 0 {
            1int
        } else {
            0
        }),
{
    let mut rows: Vec<Row> = Vec::new();
    rows.push(Row::fact("knulli", "KNULLI", knulli));
    let mut i: usize = 0;
    while i < list.len()
        invariant
            i <= list@.len(),
            rows@.len() == i + 1,
            rows@[0]@ == fact("knulli"@, "KNULLI"@, knulli@),
            forall|k: int| 0 <= k < i ==> is_row_of(rows@[k + 1]@, #[trigger] list@[k], *disk),
        decreases list@.len() - i,
    {
        let p = &list[i];
        let ghost before = rows@;
        let live: Option<usize> = match p.state(disk) {
            State::At(n) => Some(n),
            State::Changed => None,
        };
        rows.push(Row::dial(p.id, p.title, p.detail, p.option_names(), live));
        proof {
            assert forall|k: int| 0 <= k < i + 1 implies is_row_of(rows@[k + 1]@, #[trigger] list@[k], *disk) by {
                if k < i {
                    assert(rows@[k + 1] == before[k + 1]);
                }
            }
        }
        i += 1;
    }
    proof {
        let all = model::rows_of(rows@);
        reveal_with_fuel(model::first_selectable, 3);
        assert(all[0].kind is Fact);
        if list@.len() > 0 {
            assert(is_row_of(rows@[1]@, list@[0], *disk));
            assert(all[1] == rows@[1]@);
        }
    }
    Page::new(rows)
}

/// Opening the patches tab queues nothing, whatever it finds.
pub proof fn law_nothing_is_queued_before_anything_is_touched(line: model::Line, p: Patch, disk: Disk)
    requires
        is_row_of(line, p, disk),
    ensures
        !model::queued(line.kind),
{
}

} // verus!
