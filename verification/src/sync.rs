//! Where a sync stands, as the interface draws it.

use vstd::prelude::*;
use crate::text;

verus! {

/// A plan for a person to look at: one line for each thing it would do.
#[derive(Debug, Default, PartialEq, Eq)]
pub struct Review {
    pub lines: Vec<String>,
}

/// Where the sync of saves stands.
#[derive(Debug, PartialEq, Eq)]
pub enum Stage {
    Idle,
    /// The worker is at something.
    Asking { note: String },
    /// A plan is there to be looked at.
    Ready(Review),
    Failed(String),
    Done { moved: u128, conflicts: usize, note: String },
}

/// What is said of where the sync stands.
pub open spec fn said(s: Stage) -> Seq<char> {
    match s {
        Stage::Idle => "not synced yet"@,
        Stage::Asking { note } => note@,
        Stage::Ready(_) => "ready"@,
        Stage::Failed(why) => "failed: "@ + why@,
        Stage::Done { note, .. } => note@,
    }
}

impl Stage {
    /// One line for where it stands.
    pub fn note(&self) -> (r: String)
        ensures
            r@ == said(*self),
    {
        match self {
            Stage::Idle => text::owned("not synced yet"),
            Stage::Asking { note } => text::owned(note),
            Stage::Ready(_) => text::owned("ready"),
            Stage::Failed(why) => {
                let mut s = text::owned("failed: ");
                s.append(why);
                s
            },
            Stage::Done { note, .. } => text::owned(note),
        }
    }

    /// Whether the worker is still at it.
    pub fn is_busy(&self) -> (r: bool)
        ensures
            r == (self is Asking),
    {
        match self {
            Stage::Asking { .. } => true,
            _ => false,
        }
    }
}

/// Where the sync of stars stands.
#[derive(Debug, PartialEq, Eq)]
pub enum Stars {
    Idle,
    Asking(String),
    Ready { headline: String, moves: u128 },
    Failed(String),
    Done(String),
}

/// Where the sync of stars stands, as a value.
pub enum Standing {
    Idle,
    Asking(Seq<char>),
    Ready { headline: Seq<char>, moves: nat },
    Failed(Seq<char>),
    Done(Seq<char>),
}

impl View for Stars {
    type V = Standing;

    open spec fn view(&self) -> Standing {
        match self {
            Stars::Idle => Standing::Idle,
            Stars::Asking(note) => Standing::Asking(note@),
            Stars::Ready { headline, moves } => Standing::Ready { headline: headline@, moves: *moves as nat },
            Stars::Failed(why) => Standing::Failed(why@),
            Stars::Done(note) => Standing::Done(note@),
        }
    }
}

impl Stars {
    /// Whether the worker is still at it.
    pub fn is_busy(&self) -> (r: bool)
        ensures
            r == (self is Asking),
    {
        match self {
            Stars::Asking(_) => true,
            _ => false,
        }
    }
}

} // verus!
