//! What the worker says, and what the interface makes of it.
//!
//! The network runs on a thread of its own and reports back through a channel that
//! the interface drains once a frame. What each job says at each turn, and how what
//! it said is folded into what is drawn, is decided here.

use vstd::prelude::*;
use crate::failure::Failure;
use crate::favcarry;
use crate::favrun;
use crate::favrun::Plan;
use crate::number;
use crate::paths;
use crate::sync;
use crate::sync::{Review, Stage, Stars};
use crate::text;

verus! {

/// A save that changed on both sides.
#[derive(Debug, PartialEq, Eq)]
pub struct SaveConflict {
    pub rom_id: i64,
    pub file_name: String,
}

/// What the worker sends back.
#[derive(Debug)]
pub enum Message {
    /// Something to show while waiting.
    Note(String),
    Plan(Box<Review>),
    /// A stars plan, shown before anything moves.
    Stars(Box<Plan>),
    /// A sync ran. `conflicts` are the saves that changed on both sides: nothing
    /// was written for those and they still need a person.
    Finished { moved: u128, note: String, conflicts: Vec<SaveConflict> },
    /// What went wrong in a run that otherwise finished. Sent before `Finished`.
    Report(Vec<String>),
    Failed(String),
}

/// Whether a message says this of a job that failed.
pub open spec fn says_failed(m: Message, why: Seq<char>) -> bool {
    m is Failed && m->Failed_0@ == why
}

/// Whether a message says this while waiting.
pub open spec fn says_note(m: Message, note: Seq<char>) -> bool {
    m is Note && m->Note_0@ == note
}

/// Whether a message says this of a job that finished, with no conflicts.
pub open spec fn says_finished(m: Message, moved: nat, note: Seq<char>) -> bool {
    m is Finished && m->moved == moved && m->Finished_note@ == note && m->conflicts@.len() == 0
}

// ---------------------------------------------------------------------------
// Where things are
// ---------------------------------------------------------------------------

/// The places worth looking for the library index, in order: the app's own, then
/// the ones an earlier front end left.
pub fn cache_search_path(app_dir: &str) -> (r: Vec<String>)
    ensures
        text::texts(r@) == seq![
            paths::joined(app_dir@, "cache.sqlite3"@),
            paths::joined(app_dir@, "../moose-rack/cache.sqlite3"@),
            "/userdata/system/moose-rack/cache.sqlite3"@,
        ],
{
    let mut out: Vec<String> = Vec::new();
    out.push(paths::join(app_dir, "cache.sqlite3"));
    out.push(paths::join(app_dir, "../moose-rack/cache.sqlite3"));
    out.push(text::owned("/userdata/system/moose-rack/cache.sqlite3"));
    assert(text::texts(out@) =~= seq![
        paths::joined(app_dir@, "cache.sqlite3"@),
        paths::joined(app_dir@, "../moose-rack/cache.sqlite3"@),
        "/userdata/system/moose-rack/cache.sqlite3"@,
    ]);
    out
}

/// The first of some paths that is among the files that are there.
pub open spec fn first_there(candidates: Seq<Seq<char>>, there: Seq<Seq<char>>) -> Option<Seq<char>>
    decreases candidates.len(),
{
    if candidates.len() == 0 {
        None
    } else if there.contains(candidates[0]) {
        Some(candidates[0])
    } else {
        first_there(candidates.skip(1), there)
    }
}

/// Where the library index is: the first of the candidates that is a file.
pub fn find_cache(candidates: &Vec<String>, files: &Vec<String>) -> (r: Option<String>)
    ensures
        text::opt(r) == first_there(text::texts(candidates@), text::texts(files@)),
{
    let ghost all = text::texts(candidates@);
    let mut i: usize = 0;
    assert(all.skip(0) =~= all);
    while i < candidates.len()
        invariant
            all == text::texts(candidates@),
            i <= candidates@.len(),
            first_there(all, text::texts(files@)) == first_there(all.skip(i as int), text::texts(files@)),
        decreases candidates@.len() - i,
    {
        proof {
            assert(all.skip(i as int)[0] == candidates@[i as int]@);
            assert(all.skip(i as int).skip(1) =~= all.skip(i + 1));
        }
        if text::list_has(files, &candidates[i]) {
            return Some(text::owned(&candidates[i]));
        }
        i += 1;
    }
    None
}

/// Where the gamelists and collection files are copied before a rewrite.
pub fn es_backups(app_dir: &str) -> (r: String)
    ensures
        r@ == paths::joined(app_dir@, "es-backup"@),
{
    paths::join(app_dir, "es-backup")
}

/// The part of a job that something can go wrong in.
#[derive(Debug, Clone, Copy, PartialEq, Eq, Structural)]
pub enum Doing {
    OpeningTheIndex,
    ScanningSaves,
    ReadingTheCard,
    StartingTheNetwork,
    SavingWhatWasAgreed,
    /// Something that says enough by itself.
    Talking,
}

/// What is said of where it went wrong.
pub open spec fn doing_text(d: Doing) -> Seq<char> {
    match d {
        Doing::OpeningTheIndex => "opening the index: "@,
        Doing::ScanningSaves => "scanning saves: "@,
        Doing::ReadingTheCard => "reading the card: "@,
        Doing::StartingTheNetwork => "starting the network: "@,
        Doing::SavingWhatWasAgreed => "saving what was agreed: "@,
        Doing::Talking => Seq::empty(),
    }
}

/// What is said when part of a job fails.
pub fn failed_while(doing: Doing, e: &Failure) -> (r: Message)
    ensures
        says_failed(r, doing_text(doing) + text::join(e@, ": "@)),
{
    let mut s = match doing {
        Doing::OpeningTheIndex => text::owned("opening the index: "),
        Doing::ScanningSaves => text::owned("scanning saves: "),
        Doing::ReadingTheCard => text::owned("reading the card: "),
        Doing::StartingTheNetwork => text::owned("starting the network: "),
        Doing::SavingWhatWasAgreed => text::owned("saving what was agreed: "),
        Doing::Talking => String::new(),
    };
    assert(s@ =~= doing_text(doing));
    let all = e.full();
    s.append(&all);
    Message::Failed(s)
}

/// What is said when there is no library index, by the job that needs it.
pub fn no_index(for_stars: bool) -> (r: Message)
    ensures
        says_failed(r, if for_stars {
            "no library index — the stars cannot be matched to the server"@
        } else {
            "no library index — the save list cannot be matched to the server"@
        }),
{
    if for_stars {
        Message::Failed(text::owned("no library index — the stars cannot be matched to the server"))
    } else {
        Message::Failed(text::owned("no library index — the save list cannot be matched to the server"))
    }
}

/// Refuses to talk to no server at all.
pub fn refuse_without_server(server: &str) -> (r: Option<Message>)
    ensures
        text::trim(server@).len() == 0 ==> (r matches Some(m) && says_failed(m, "no server in config.toml"@)),
        text::trim(server@).len() > 0 ==> r is None,
{
    if text::is_empty(&text::trimmed(server)) {
        Some(Message::Failed(text::owned("no server in config.toml")))
    } else {
        None
    }
}

// ---------------------------------------------------------------------------
// Stars
// ---------------------------------------------------------------------------

/// Refuses to carry a plan out under a running EmulationStation where the plan
/// writes a file that ES keeps in memory: ES would write its own copy back over it
/// on its next exit.
pub fn refuse_under_es(writes_card: &Result<bool, Failure>, es_running: bool) -> (r: Option<Message>)
    ensures
        match *writes_card {
            Err(e) => r matches Some(m) && says_failed(m, text::join(e@, ": "@)),
            Ok(w) => if w && es_running {
                r matches Some(m) && says_failed(
                    m,
                    "EmulationStation is running and would write its own copy over this — open moose-patch with L2+R2, or run moose-patch --stars-apply over ssh"@,
                )
            } else {
                r is None
            },
        },
{
    match writes_card {
        Err(e) => Some(Message::Failed(e.full())),
        Ok(w) => if *w && es_running {
            Some(
                Message::Failed(
                    text::owned(
                        "EmulationStation is running and would write its own copy over this — open moose-patch with L2+R2, or run moose-patch --stars-apply over ssh",
                    ),
                ),
            )
        } else {
            None
        },
    }
}

/// What is said of lists that did not sync, after what did.
pub open spec fn did_not_sync(note: Seq<char>, failed: Seq<Seq<char>>) -> Seq<char> {
    note + "; "@ + number::decimal(failed.len()) + " list(s) did not sync: "@ + text::join(failed, "; "@)
}

/// What a stars run says when it is done: a list that did not sync is named, not
/// counted.
pub fn stars_done(plan: &Plan, report: &favcarry::Report) -> (r: Message)
    requires
        report.applied_here + report.sent <= u128::MAX,
    ensures
        ({
            let note = favcarry::summary_of(report.applied_here as nat, report.sent as nat, report.shown);
            let failed = plan@.unread + text::texts(report.failed@);
            if failed.len() == 0 {
                says_finished(r, (report.applied_here + report.sent) as nat, note)
            } else {
                says_failed(r, did_not_sync(note, failed))
            }
        }),
{
    let note = report.summary();
    let failed = favcarry::failures(plan, report);
    assert(text::texts(failed@).len() == failed@.len());
    if failed.len() == 0 {
        return Message::Finished { moved: report.applied_here + report.sent, note, conflicts: Vec::new() };
    }
    let mut s = note;
    s.append("; ");
    let n = number::decimal_of(failed.len() as u128);
    s.append(&n);
    s.append(" list(s) did not sync: ");
    let l = text::joined(&failed, "; ");
    s.append(&l);
    Message::Failed(s)
}

// ---------------------------------------------------------------------------
// Saves
// ---------------------------------------------------------------------------

/// What a run over the saves came to.
#[derive(Debug)]
pub struct Summary {
    pub uploaded: usize,
    pub downloaded: usize,
    pub headline: String,
    pub problems: Vec<String>,
    pub conflicts: Vec<SaveConflict>,
}

/// What a run over the saves says when it is done: what went wrong first, if
/// something did, and then what moved. `both` is whether the run went both ways:
/// only then does what went up count too, and are there conflicts to settle.
pub fn saves_done(summary: Summary, both: bool) -> (r: Vec<Message>)
    ensures
        r@.len() == (if summary.problems@.len() > 0 {
            2int
        } else {
            1
        }),
        summary.problems@.len() > 0 ==> r@[0] == Message::Report(summary.problems),
        r@.last() is Finished,
        r@.last()->moved == summary.downloaded + (if both {
            summary.uploaded as int
        } else {
            0
        }),
        r@.last()->Finished_note == summary.headline,
        both ==> r@.last()->conflicts == summary.conflicts,
        !both ==> r@.last()->conflicts@.len() == 0,
{
    let mut out: Vec<Message> = Vec::new();
    let moved: u128 = if both {
        summary.uploaded as u128 + summary.downloaded as u128
    } else {
        summary.downloaded as u128
    };
    if summary.problems.len() > 0 {
        out.push(Message::Report(summary.problems));
    }
    let conflicts = if both {
        summary.conflicts
    } else {
        Vec::new()
    };
    out.push(Message::Finished { moved, note: summary.headline, conflicts });
    out
}

/// What is said while conflicts are settled.
pub fn settling(n: usize) -> (r: Message)
    ensures
        says_note(r, "settling "@ + number::decimal(n as nat) + " conflict(s)"@),
{
    let mut s = text::owned("settling ");
    let d = number::decimal_of(n as u128);
    s.append(&d);
    s.append(" conflict(s)");
    Message::Note(s)
}

/// What went wrong with the conflicts that were not settled.
pub open spec fn problems_in(done: Seq<(String, Result<(), Failure>)>) -> Seq<Seq<char>>
    decreases done.len(),
{
    if done.len() == 0 {
        Seq::empty()
    } else {
        let before = problems_in(done.drop_last());
        match done.last().1 {
            Ok(_) => before,
            Err(e) => before.push(done.last().0@ + ": "@ + text::join(e@, ": "@)),
        }
    }
}

/// What is said of conflicts once they were settled or not.
pub open spec fn settled_note(settled: nat, failed: nat) -> Seq<char> {
    number::decimal(settled) + " conflict(s) settled"@ + (if failed == 0 {
        Seq::empty()
    } else {
        ", "@ + number::decimal(failed) + " failed"@
    })
}

/// What settling conflicts says when it is done, given what came of each.
pub fn resolved(done: &Vec<(String, Result<(), Failure>)>) -> (r: Vec<Message>)
    ensures
        ({
            let problems = problems_in(done@);
            let settled = (done@.len() - problems.len()) as nat;
            &&& r@.len() == (if problems.len() > 0 {
                2int
            } else {
                1
            })
            &&& problems.len() > 0 ==> (r@[0] matches Message::Report(ps) && text::texts(ps@) == problems)
            &&& says_finished(r@.last(), settled, settled_note(settled, problems.len()))
        }),
{
    let mut problems: Vec<String> = Vec::new();
    let mut i: usize = 0;
    assert(text::texts(problems@) =~= problems_in(done@.take(0)));
    while i < done.len()
        invariant
            i <= done@.len(),
            problems@.len() <= i,
            text::texts(problems@) == problems_in(done@.take(i as int)),
        decreases done@.len() - i,
    {
        let ghost before = problems@;
        assert(done@.take(i + 1).drop_last() =~= done@.take(i as int));
        match &done[i].1 {
            Ok(_) => {},
            Err(e) => {
                let mut s = text::owned(&done[i].0);
                s.append(": ");
                let all = e.full();
                s.append(&all);
                problems.push(s);
                assert(text::texts(problems@) =~= text::texts(before).push(s@));
            },
        }
        i += 1;
    }
    assert(done@.take(i as int) =~= done@);
    let failed: usize = problems.len();
    assert(text::texts(problems@).len() == failed);
    let settled: usize = done.len() - failed;
    let mut note = number::decimal_of(settled as u128);
    note.append(" conflict(s) settled");
    if failed > 0 {
        note.append(", ");
        let d = number::decimal_of(failed as u128);
        note.append(&d);
        note.append(" failed");
    }
    assert(note@ =~= settled_note(settled as nat, failed as nat));
    let mut out: Vec<Message> = Vec::new();
    if failed > 0 {
        out.push(Message::Report(problems));
    }
    out.push(Message::Finished { moved: settled as u128, note, conflicts: Vec::new() });
    out
}

/// What rebuilding the game list says when it is done: how many games, across how
/// many systems.
pub fn refreshed(came: &Result<(usize, usize), Failure>) -> (r: Message)
    ensures
        match *came {
            Ok((platforms, roms)) => says_finished(
                r,
                roms as nat,
                number::decimal(roms as nat) + " games across "@ + number::decimal(platforms as nat) + " systems"@,
            ),
            Err(e) => says_failed(r, text::join(e@, ": "@)),
        },
{
    match came {
        Ok((platforms, roms)) => {
            let mut note = number::decimal_of(*roms as u128);
            note.append(" games across ");
            let p = number::decimal_of(*platforms as u128);
            note.append(&p);
            note.append(" systems");
            Message::Finished { moved: *roms as u128, note, conflicts: Vec::new() }
        },
        Err(e) => Message::Failed(e.full()),
    }
}

/// What is said once the saves were looked for, before the server is asked.
pub fn saves_found(states: usize, skipped: usize) -> (r: Message)
    ensures
        says_note(
            r,
            number::decimal(states as nat) + " saves found, "@ + number::decimal(skipped as nat)
                + " unmatched — asking the server"@,
        ),
{
    let mut s = number::decimal_of(states as u128);
    s.append(" saves found, ");
    let n = number::decimal_of(skipped as u128);
    s.append(&n);
    s.append(" unmatched — asking the server");
    Message::Note(s)
}

// ---------------------------------------------------------------------------
// What the interface makes of it
// ---------------------------------------------------------------------------

/// Where a sync stands after one message.
pub open spec fn stage_after(s: Stage, m: Message) -> Stage {
    match m {
        Message::Note(note) => Stage::Asking { note },
        Message::Plan(review) => Stage::Ready(*review),
        Message::Failed(why) => Stage::Failed(why),
        Message::Finished { moved, note, conflicts } => Stage::Done {
            moved,
            conflicts: conflicts@.len() as usize,
            note,
        },
        Message::Stars(_) => s,
        Message::Report(_) => s,
    }
}

/// Where a sync stands after some messages.
pub open spec fn stage_folded(s: Stage, ms: Seq<Message>) -> Stage
    decreases ms.len(),
{
    if ms.len() == 0 {
        s
    } else {
        stage_after(stage_folded(s, ms.drop_last()), ms.last())
    }
}

/// The conflicts held after some messages: those of the last run that finished.
pub open spec fn held_folded(held: Vec<SaveConflict>, ms: Seq<Message>) -> Vec<SaveConflict>
    decreases ms.len(),
{
    if ms.len() == 0 {
        held
    } else {
        match ms.last() {
            Message::Finished { conflicts, .. } => conflicts,
            _ => held_folded(held, ms.drop_last()),
        }
    }
}

/// Folds everything the worker has said into the stage the interface draws. The
/// last word wins.
pub fn apply(stage: &mut Stage, held: &mut Vec<SaveConflict>, messages: Vec<Message>)
    ensures
        *final(stage) == stage_folded(*old(stage), messages@),
        *final(held) == held_folded(*old(held), messages@),
{
    let ghost all = messages@;
    let ghost s0 = *stage;
    let ghost h0 = *held;
    assert(all.take(0) =~= Seq::empty());
    for message in it: messages
        invariant
            it.seq() == all,
            *stage == stage_folded(s0, all.take(it.index())),
            *held == held_folded(h0, all.take(it.index())),
    {
        proof {
            assert(all.take(it.index() + 1).drop_last() =~= all.take(it.index()));
            assert(all.take(it.index() + 1).last() == message);
        }
        match message {
            Message::Note(note) => {
                *stage = Stage::Asking { note };
            },
            Message::Plan(review) => {
                *stage = Stage::Ready(*review);
            },
            Message::Failed(why) => {
                *stage = Stage::Failed(why);
            },
            Message::Finished { moved, note, conflicts } => {
                let count: usize = conflicts.len();
                *held = conflicts;
                *stage = Stage::Done { moved, conflicts: count, note };
            },
            Message::Stars(_) => {},
            Message::Report(_) => {},
        }
    }
    assert(all.take(all.len() as int) =~= all);
}

/// Where the stars stand after one message.
pub open spec fn stars_after(s: sync::Standing, m: Message) -> sync::Standing {
    match m {
        Message::Note(note) => sync::Standing::Asking(note@),
        Message::Stars(plan) => sync::Standing::Ready {
            headline: favrun::headline_of((*plan)@),
            moves: favrun::all_moves((*plan)@.items),
        },
        Message::Failed(why) => sync::Standing::Failed(why@),
        Message::Finished { note, .. } => sync::Standing::Done(note@),
        Message::Plan(_) => s,
        Message::Report(_) => s,
    }
}

/// Where the stars stand after some messages.
pub open spec fn stars_folded(s: sync::Standing, ms: Seq<Message>) -> sync::Standing
    decreases ms.len(),
{
    if ms.len() == 0 {
        s
    } else {
        stars_after(stars_folded(s, ms.drop_last()), ms.last())
    }
}

/// The plan held after some messages: the last that was shown, until it is carried
/// out.
pub open spec fn plan_folded(held: Option<Plan>, ms: Seq<Message>) -> Option<Plan>
    decreases ms.len(),
{
    if ms.len() == 0 {
        held
    } else {
        match ms.last() {
            Message::Stars(plan) => Some(*plan),
            Message::Finished { .. } => None,
            _ => plan_folded(held, ms.drop_last()),
        }
    }
}

/// The same fold, for the favourites job.
pub fn apply_stars(stars: &mut Stars, held: &mut Option<Plan>, messages: Vec<Message>)
    ensures
        final(stars)@ == stars_folded(old(stars)@, messages@),
        *final(held) == plan_folded(*old(held), messages@),
{
    let ghost all = messages@;
    let ghost s0 = stars@;
    let ghost h0 = *held;
    assert(all.take(0) =~= Seq::empty());
    for message in it: messages
        invariant
            it.seq() == all,
            stars@ == stars_folded(s0, all.take(it.index())),
            *held == plan_folded(h0, all.take(it.index())),
    {
        proof {
            assert(all.take(it.index() + 1).drop_last() =~= all.take(it.index()));
            assert(all.take(it.index() + 1).last() == message);
        }
        match message {
            Message::Note(note) => {
                *stars = Stars::Asking(note);
            },
            Message::Stars(plan) => {
                *stars = Stars::Ready { headline: plan.headline(), moves: plan.total() };
                *held = Some(*plan);
            },
            Message::Failed(why) => {
                *stars = Stars::Failed(why);
            },
            Message::Finished { note, .. } => {
                *held = None;
                *stars = Stars::Done(note);
            },
            Message::Plan(_) => {},
            Message::Report(_) => {},
        }
    }
    assert(all.take(all.len() as int) =~= all);
}

/// A job that failed or finished, or that has shown its plan, does not look busy.
pub proof fn law_a_job_that_ended_is_not_left_looking_busy(s: Stage, ms: Seq<Message>)
    requires
        ms.len() > 0,
        ms.last() is Failed || ms.last() is Finished || ms.last() is Plan,
    ensures
        !(stage_folded(s, ms) is Asking),
{
}

} // verus!
