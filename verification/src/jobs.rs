//! The jobs the worker runs, task by task.
//!
//! A job is a list of tasks. Each is announced where a person would wonder, they
//! run in order, and the first that fails ends the job with what it was at.

use vstd::prelude::*;
use crate::failure::Failure;
use crate::number;
use crate::text;
use crate::worker;
use crate::worker::{Doing, Message};

verus! {

/// Something that was asked of the worker.
#[derive(Debug, Clone, Copy, PartialEq, Eq, Structural)]
pub enum Job {
    /// Look at what a sync of the stars would do.
    Stars,
    /// Carry out the plan that was shown, as it was shown.
    StarsApply,
    /// Sync the saves.
    CarryOut,
    /// Settle so many conflicts.
    Resolve(usize),
    /// Rebuild the list of games.
    Refresh,
    /// Take everything the server holds.
    PullAll,
    /// Look at what a sync of the saves would do.
    Negotiate,
}

/// One thing a job does.
#[derive(Debug, Clone, Copy, PartialEq, Eq, Structural)]
pub enum Task {
    /// See that there is a server to talk to.
    HaveServer,
    /// See that EmulationStation would not write over what is written.
    LeaveEsAlone,
    /// Find the library's index.
    FindIndex,
    OpenIndex,
    ScanSaves,
    /// See which games are on the card.
    ReadCard,
    StartNetwork,
    Connect,
    /// Work out the moves that make both sides agree.
    PlanStars,
    /// Write down the lists that already agree.
    KeepAgreement,
    CarryOutStars,
    /// Write down what both sides hold now.
    SaveAgreed,
    SyncSaves,
    SettleConflicts,
    /// Open an index beside the old one.
    OpenBuilding,
    PullIndex,
    /// Put the new index in the place of the old.
    SwapIndex,
    TakeAll,
    /// See which device this is.
    Identify,
    AskPlan,
    PreviewStates,
}

/// What a job does, in order.
pub open spec fn script(job: Job) -> Seq<Task> {
    match job {
        Job::Stars => seq![
            Task::FindIndex,
            Task::OpenIndex,
            Task::ReadCard,
            Task::StartNetwork,
            Task::Connect,
            Task::PlanStars,
            Task::KeepAgreement,
        ],
        Job::StarsApply => seq![
            Task::LeaveEsAlone,
            Task::StartNetwork,
            Task::Connect,
            Task::CarryOutStars,
            Task::SaveAgreed,
        ],
        Job::CarryOut => seq![
            Task::FindIndex,
            Task::OpenIndex,
            Task::ScanSaves,
            Task::StartNetwork,
            Task::Connect,
            Task::SyncSaves,
        ],
        Job::Resolve(_) => seq![Task::StartNetwork, Task::Connect, Task::SettleConflicts],
        Job::Refresh => seq![
            Task::HaveServer,
            Task::StartNetwork,
            Task::Connect,
            Task::OpenBuilding,
            Task::PullIndex,
            Task::SwapIndex,
        ],
        Job::PullAll => seq![Task::StartNetwork, Task::Connect, Task::TakeAll],
        Job::Negotiate => seq![
            Task::HaveServer,
            Task::FindIndex,
            Task::OpenIndex,
            Task::ScanSaves,
            Task::StartNetwork,
            Task::Connect,
            Task::Identify,
            Task::AskPlan,
            Task::PreviewStates,
        ],
    }
}

/// What a job does, in order.
pub fn script_of(job: &Job) -> (r: Vec<Task>)
    ensures
        r@ == script(*job),
{
    let r = match job {
        Job::Stars => vec![
            Task::FindIndex,
            Task::OpenIndex,
            Task::ReadCard,
            Task::StartNetwork,
            Task::Connect,
            Task::PlanStars,
            Task::KeepAgreement,
        ],
        Job::StarsApply => vec![
            Task::LeaveEsAlone,
            Task::StartNetwork,
            Task::Connect,
            Task::CarryOutStars,
            Task::SaveAgreed,
        ],
        Job::CarryOut => vec![
            Task::FindIndex,
            Task::OpenIndex,
            Task::ScanSaves,
            Task::StartNetwork,
            Task::Connect,
            Task::SyncSaves,
        ],
        Job::Resolve(_) => vec![Task::StartNetwork, Task::Connect, Task::SettleConflicts],
        Job::Refresh => vec![
            Task::HaveServer,
            Task::StartNetwork,
            Task::Connect,
            Task::OpenBuilding,
            Task::PullIndex,
            Task::SwapIndex,
        ],
        Job::PullAll => vec![Task::StartNetwork, Task::Connect, Task::TakeAll],
        Job::Negotiate => vec![
            Task::HaveServer,
            Task::FindIndex,
            Task::OpenIndex,
            Task::ScanSaves,
            Task::StartNetwork,
            Task::Connect,
            Task::Identify,
            Task::AskPlan,
            Task::PreviewStates,
        ],
    };
    assert(r@ =~= script(*job));
    r
}

/// What is said before a task, if anything. `states` and `skipped` are the saves
/// that were found, and those that belong to no game.
pub open spec fn note_before(job: Job, task: Task, states: nat, skipped: nat) -> Option<Seq<char>> {
    match (job, task) {
        (Job::Stars, Task::ReadCard) => Some("looking at what is on the card"@),
        (Job::Stars, Task::Connect) => Some("asking the server for its collections"@),
        (Job::StarsApply, Task::Connect) => Some("applying"@),
        (Job::CarryOut, Task::OpenIndex) => Some("reading the library index"@),
        (Job::CarryOut, Task::ScanSaves) => Some("scanning saves"@),
        (Job::CarryOut, Task::StartNetwork) => Some("syncing"@),
        (Job::Resolve(n), Task::StartNetwork) => Some(
            "settling "@ + number::decimal(n as nat) + " conflict(s)"@,
        ),
        (Job::Refresh, Task::StartNetwork) => Some("rebuilding the game list"@),
        (Job::PullAll, Task::StartNetwork) => Some("taking everything the server holds"@),
        (Job::Negotiate, Task::OpenIndex) => Some("reading the library index"@),
        (Job::Negotiate, Task::ScanSaves) => Some("scanning saves"@),
        (Job::Negotiate, Task::StartNetwork) => Some(
            number::decimal(states) + " saves found, "@ + number::decimal(skipped) + " unmatched — asking the server"@,
        ),
        _ => None,
    }
}

/// Whether something that may have been said is what is to be said.
pub open spec fn says(m: Option<Message>, note: Option<Seq<char>>) -> bool {
    match note {
        Some(t) => m matches Some(n) && worker::says_note(n, t),
        None => m is None,
    }
}

fn noted(t: &str) -> (r: Option<Message>)
    ensures
        says(r, Some(t@)),
{
    Some(Message::Note(text::owned(t)))
}

/// What is said before a task, if anything.
pub fn said_before(job: &Job, task: Task, states: usize, skipped: usize) -> (r: Option<Message>)
    ensures
        says(r, note_before(*job, task, states as nat, skipped as nat)),
{
    match (job, task) {
        (Job::Stars, Task::ReadCard) => noted("looking at what is on the card"),
        (Job::Stars, Task::Connect) => noted("asking the server for its collections"),
        (Job::StarsApply, Task::Connect) => noted("applying"),
        (Job::CarryOut, Task::OpenIndex) => noted("reading the library index"),
        (Job::CarryOut, Task::ScanSaves) => noted("scanning saves"),
        (Job::CarryOut, Task::StartNetwork) => noted("syncing"),
        (Job::Resolve(n), Task::StartNetwork) => Some(worker::settling(*n)),
        (Job::Refresh, Task::StartNetwork) => noted("rebuilding the game list"),
        (Job::PullAll, Task::StartNetwork) => noted("taking everything the server holds"),
        (Job::Negotiate, Task::OpenIndex) => noted("reading the library index"),
        (Job::Negotiate, Task::ScanSaves) => noted("scanning saves"),
        (Job::Negotiate, Task::StartNetwork) => Some(worker::saves_found(states, skipped)),
        _ => None,
    }
}

/// Where a task went wrong, as a failure of it says.
pub open spec fn doing(task: Task) -> Doing {
    match task {
        Task::OpenIndex => Doing::OpeningTheIndex,
        Task::ScanSaves => Doing::ScanningSaves,
        Task::ReadCard => Doing::ReadingTheCard,
        Task::StartNetwork => Doing::StartingTheNetwork,
        Task::KeepAgreement => Doing::SavingWhatWasAgreed,
        Task::SaveAgreed => Doing::SavingWhatWasAgreed,
        _ => Doing::Talking,
    }
}

/// What is said of a task that failed: what was missing, for one that only looks,
/// and else where it was and why.
pub open spec fn failure_text(job: Job, task: Task, why: Seq<Seq<char>>) -> Seq<char> {
    match task {
        Task::FindIndex => if job == Job::Stars {
            "no library index — the stars cannot be matched to the server"@
        } else {
            "no library index — the save list cannot be matched to the server"@
        },
        Task::HaveServer => "no server in config.toml"@,
        _ => worker::doing_text(doing(task)) + text::join(why, ": "@),
    }
}

/// What is said of a task that failed.
pub fn failed_at(job: &Job, task: Task, why: &Failure) -> (r: Message)
    ensures
        worker::says_failed(r, failure_text(*job, task, why@)),
{
    match task {
        Task::FindIndex => {
            let stars = match job {
                Job::Stars => true,
                _ => false,
            };
            worker::no_index(stars)
        },
        Task::HaveServer => Message::Failed(text::owned("no server in config.toml")),
        Task::OpenIndex => worker::failed_while(Doing::OpeningTheIndex, why),
        Task::ScanSaves => worker::failed_while(Doing::ScanningSaves, why),
        Task::ReadCard => worker::failed_while(Doing::ReadingTheCard, why),
        Task::StartNetwork => worker::failed_while(Doing::StartingTheNetwork, why),
        Task::KeepAgreement => worker::failed_while(Doing::SavingWhatWasAgreed, why),
        Task::SaveAgreed => worker::failed_while(Doing::SavingWhatWasAgreed, why),
        _ => worker::failed_while(Doing::Talking, why),
    }
}

/// What a job does next.
#[derive(Debug)]
pub enum Next {
    /// One of its tasks, and what is said before it.
    Do { say: Option<Message>, task: Task },
    /// Nothing: it has failed, with this to say.
    Stop(Message),
    /// Nothing: every task is done.
    Ended,
}

/// What a job does next, where `done` of its tasks are over and `last` is what came
/// of the one it was at. The first that fails is the last.
pub fn next(job: &Job, done: usize, last: Result<(), Failure>, states: usize, skipped: usize) -> (r: Next)
    ensures
        match last {
            Err(e) => if done < script(*job).len() {
                r matches Next::Stop(m) && worker::says_failed(m, failure_text(*job, script(*job)[done as int], e@))
            } else {
                r is Ended
            },
            Ok(_) => if done < script(*job).len() {
                r matches Next::Do { say, task } && task == script(*job)[done as int] && says(
                    say,
                    note_before(*job, task, states as nat, skipped as nat),
                )
            } else {
                r is Ended
            },
        },
{
    let tasks = script_of(job);
    if done >= tasks.len() {
        return Next::Ended;
    }
    let task = tasks[done];
    match last {
        Err(e) => Next::Stop(failed_at(job, task, &e)),
        Ok(_) => Next::Do { say: said_before(job, task, states, skipped), task },
    }
}

/// What is written down as agreed is written after the work that brought it about:
/// a run that died halfway is worked out again, not recorded.
pub proof fn law_what_was_agreed_is_saved_last(job: Job, i: int)
    requires
        0 <= i < script(job).len(),
        script(job)[i] == Task::SaveAgreed || script(job)[i] == Task::KeepAgreement,
    ensures
        i == script(job).len() - 1,
        exists|k: int| 0 <= k < i && (script(job)[k] == Task::CarryOutStars || #[trigger] script(job)[k] == Task::PlanStars),
{
    assert(script(job)[i - 1] == Task::CarryOutStars || script(job)[i - 1] == Task::PlanStars);
}

/// The old list of games stays until the new one is complete: nothing takes its
/// place but at the very end, after everything was pulled.
pub proof fn law_the_old_index_stays_until_the_new_is_complete(job: Job, i: int)
    requires
        0 <= i < script(job).len(),
        script(job)[i] == Task::SwapIndex,
    ensures
        i == script(job).len() - 1,
        script(job)[i - 1] == Task::PullIndex,
{
}

/// No task that writes to the card runs before it is known that EmulationStation
/// would not write over it.
pub proof fn law_es_is_looked_at_before_the_card_is_written(job: Job, i: int)
    requires
        0 <= i < script(job).len(),
        script(job)[i] == Task::CarryOutStars,
    ensures
        0 < i,
        script(job)[0] == Task::LeaveEsAlone,
{
}

} // verus!
