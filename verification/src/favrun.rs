//! The stars sync, end to end.
//!
//! [`crate::favsync`] decides what should happen, [`crate::gamelist`] and
//! [`crate::eslist`] can write ES's files and [`crate::favmap`] joins numbers to
//! paths. This puts them together.
//!
//! Which of ES's two kinds of list a collection belongs to is decided by its name:
//!
//! * `★ Best of snes`: the stars in the gamelist of `snes`
//! * `★ Favourites`: the stars in every gamelist on the card
//! * anything else: `collections/custom-<name>.cfg`
//!
//! Only hand-made collections take part. A smart collection is a stored filter and
//! a virtual one is grouped on the fly; neither has a membership the server could
//! write.

use vstd::prelude::*;
use std::collections::BTreeSet;
use crate::disk;
use crate::disk::Disk;
use crate::eslist;
use crate::eslist::CollectionFile;
use crate::failure::Failure;
use crate::favmap;
use crate::favmap::{EsPaths, FileKey, Known, Platform};
use crate::favsync;
use crate::favsync::{Baseline, Move};
use crate::gamelist;
use crate::gamelist::Gamelist;
use crate::lines;
use crate::number;
use crate::order;
use crate::table::Table;
use crate::text;

verus! {

/// A collection on the server, as far as the sync reads it.
#[derive(Debug)]
pub struct Collection {
    pub id: String,
    pub name: String,
    pub rom_ids: Vec<i64>,
    pub is_virtual: bool,
    pub is_smart: bool,
}

/// Where a collection lives on the handheld.
#[derive(Debug, PartialEq, Eq)]
pub enum Held {
    /// ES's own stars, in these system folders. One folder for a per-system list;
    /// every folder on the card for the library-wide one.
    Stars(Vec<String>),
    /// A `custom-<name>.cfg`.
    File,
}

/// Where a collection lives, as a value.
pub enum Kept {
    Stars(Seq<Seq<char>>),
    File,
}

impl View for Held {
    type V = Kept;

    open spec fn view(&self) -> Kept {
        match self {
            Held::Stars(folders) => Kept::Stars(text::texts(folders@)),
            Held::File => Kept::File,
        }
    }
}

/// The one list that means every star on the card, whatever the system. By exact
/// name.
pub const ALL_STARS: &'static str = "★ Favourites";

/// The prefix of the per-system starred lists.
pub const PER_SYSTEM: &'static str = "★ Best of ";

/// More unstars than this in one run are refused unless insisted on.
pub const MAX_UNSTARS: u128 = 20;

/// Taking more than half a list's games is refused too, once it is more than this
/// many.
pub const FEW: u128 = 2;

/// Which kind of ES list a collection maps onto.
pub open spec fn kept_as(
    name: Seq<char>,
    folders: Seq<Seq<char>>,
    mapping: Seq<(String, String)>,
) -> Kept {
    match text::after(name, PER_SYSTEM@) {
        Some(slug) => Kept::Stars(seq![favmap::folder_for(mapping, text::trim(slug))]),
        None => if name == ALL_STARS@ {
            Kept::Stars(folders)
        } else {
            Kept::File
        },
    }
}

/// Which kind of ES list a collection maps onto.
///
/// `folders` is what the card actually has, so the library-wide list covers
/// exactly the systems present rather than every system the server knows.
pub fn held_as(c: &Collection, folders: &Vec<String>, platform: &Platform) -> (r: Held)
    ensures
        r@ == kept_as(c.name@, text::texts(folders@), platform.folders@),
{
    if let Some(slug) = text::strip_prefix(&c.name, PER_SYSTEM) {
        let mut one: Vec<String> = Vec::new();
        let folder = platform.save_folder(&text::trimmed(&slug));
        one.push(folder);
        assert(text::texts(one@) =~= seq![folder@]);
        return Held::Stars(one);
    }
    if text::same(&c.name, ALL_STARS) {
        let n: usize = folders.len();
        let all = text::copied(folders, 0, n);
        assert(text::texts(folders@).subrange(0, n as int) =~= text::texts(folders@));
        return Held::Stars(all);
    }
    Held::File
}

/// What one collection needs doing.
#[derive(Debug)]
pub struct Item {
    pub id: String,
    pub name: String,
    pub held: Held,
    pub moves: Vec<Move>,
    /// What the baseline becomes once `moves` have been carried out.
    pub agreed: BTreeSet<i64>,
}

/// What one collection needs doing, as a value.
pub struct Work {
    pub id: Seq<char>,
    pub name: Seq<char>,
    pub held: Kept,
    pub moves: Seq<Move>,
    pub agreed: Set<i64>,
}

impl View for Item {
    type V = Work;

    open spec fn view(&self) -> Work {
        Work { id: self.id@, name: self.name@, held: self.held@, moves: self.moves@, agreed: self.agreed@ }
    }
}

/// The items, as values.
pub open spec fn works(items: Seq<Item>) -> Seq<Work> {
    items.map_values(|i: Item| i@)
}

/// The games of the moves of one kind, in the order of the moves.
pub open spec fn picked(moves: Seq<Move>, f: spec_fn(Move) -> bool) -> Seq<i64>
    decreases moves.len(),
{
    if moves.len() == 0 {
        Seq::empty()
    } else {
        let before = picked(moves.drop_last(), f);
        if f(moves.last()) {
            before.push(favsync::game_of(moves.last()))
        } else {
            before
        }
    }
}

/// How many moves are of one kind.
pub open spec fn tally(moves: Seq<Move>, f: spec_fn(Move) -> bool) -> nat
    decreases moves.len(),
{
    if moves.len() == 0 {
        0
    } else {
        tally(moves.drop_last(), f) + if f(moves.last()) {
            1nat
        } else {
            0nat
        }
    }
}

/// Whether a move takes a star off, on either side.
pub open spec fn unstar() -> spec_fn(Move) -> bool {
    |m: Move| favsync::takes_off(m)
}

/// Whether a move adds a star, on either side.
pub open spec fn star() -> spec_fn(Move) -> bool {
    |m: Move| !favsync::takes_off(m)
}

/// Whether a move is made on the card.
pub open spec fn made_here() -> spec_fn(Move) -> bool {
    |m: Move| !favsync::on_server(m)
}

/// Whether a move stars a game on the server.
pub open spec fn sends_up() -> spec_fn(Move) -> bool {
    |m: Move| m is StarOnServer
}

/// Whether a move unstars a game on the server.
pub open spec fn takes_down() -> spec_fn(Move) -> bool {
    |m: Move| m is UnstarOnServer
}

fn is_star_on_server(m: &Move) -> (r: bool)
    ensures
        r == (m is StarOnServer),
{
    match *m {
        Move::StarOnServer(_) => true,
        _ => false,
    }
}

fn is_unstar_on_server(m: &Move) -> (r: bool)
    ensures
        r == (m is UnstarOnServer),
{
    match *m {
        Move::UnstarOnServer(_) => true,
        _ => false,
    }
}

impl Item {
    /// The games to star on the server.
    pub fn to_server(&self) -> (r: Vec<i64>)
        ensures
            r@ == picked(self.moves@, sends_up()),
    {
        let mut out: Vec<i64> = Vec::new();
        let mut i: usize = 0;
        while i < self.moves.len()
            invariant
                i <= self.moves@.len(),
                out@ == picked(self.moves@.take(i as int), sends_up()),
            decreases self.moves@.len() - i,
        {
            assert(self.moves@.take(i + 1).drop_last() =~= self.moves@.take(i as int));
            if is_star_on_server(&self.moves[i]) {
                out.push(self.moves[i].rom_id());
            }
            i += 1;
        }
        assert(self.moves@.take(i as int) =~= self.moves@);
        out
    }

    /// The games to unstar on the server.
    pub fn off_server(&self) -> (r: Vec<i64>)
        ensures
            r@ == picked(self.moves@, takes_down()),
    {
        let mut out: Vec<i64> = Vec::new();
        let mut i: usize = 0;
        while i < self.moves.len()
            invariant
                i <= self.moves@.len(),
                out@ == picked(self.moves@.take(i as int), takes_down()),
            decreases self.moves@.len() - i,
        {
            assert(self.moves@.take(i + 1).drop_last() =~= self.moves@.take(i as int));
            if is_unstar_on_server(&self.moves[i]) {
                out.push(self.moves[i].rom_id());
            }
            i += 1;
        }
        assert(self.moves@.take(i as int) =~= self.moves@);
        out
    }

    /// Stars this takes off, on either side.
    pub fn unstars(&self) -> (r: usize)
        ensures
            r == tally(self.moves@, unstar()),
            r <= self.moves@.len(),
    {
        let mut n: usize = 0;
        let mut i: usize = 0;
        while i < self.moves.len()
            invariant
                n <= i <= self.moves@.len(),
                n == tally(self.moves@.take(i as int), unstar()),
            decreases self.moves@.len() - i,
        {
            assert(self.moves@.take(i + 1).drop_last() =~= self.moves@.take(i as int));
            if self.moves[i].unstars() {
                n += 1;
            }
            i += 1;
        }
        assert(self.moves@.take(i as int) =~= self.moves@);
        n
    }

    /// Games the list had before this: what is agreed afterwards, without the stars
    /// this adds and with those it takes off.
    fn before(&self) -> (r: u128)
        ensures
            r == had(self@),
    {
        let off: usize = self.unstars();
        let all: usize = self.moves.len();
        proof {
            lemma_tallies(self.moves@);
        }
        let added: usize = all - off;
        let with: u128 = self.agreed.len() as u128 + off as u128;
        if with >= added as u128 {
            with - added as u128
        } else {
            0
        }
    }

    /// Moves this makes on the card.
    pub fn here(&self) -> (r: usize)
        ensures
            r == tally(self.moves@, made_here()),
            r <= self.moves@.len(),
    {
        let mut n: usize = 0;
        let mut i: usize = 0;
        while i < self.moves.len()
            invariant
                n <= i <= self.moves@.len(),
                n == tally(self.moves@.take(i as int), made_here()),
            decreases self.moves@.len() - i,
        {
            assert(self.moves@.take(i + 1).drop_last() =~= self.moves@.take(i as int));
            if !self.moves[i].touches_server() {
                n += 1;
            }
            i += 1;
        }
        assert(self.moves@.take(i as int) =~= self.moves@);
        n
    }

    /// Whether the collection is a file.
    pub fn is_file(&self) -> (r: bool)
        ensures
            r == (self@.held is File),
    {
        match self.held {
            Held::File => true,
            _ => false,
        }
    }
}

/// What one collection looked like on each side, whether or not it needs work.
///
/// Kept so that "nothing to do" can be checked rather than believed.
#[derive(Debug)]
pub struct Survey {
    pub name: String,
    pub here: usize,
    pub server: usize,
    /// How many of the server's are on this card at all.
    pub reachable: usize,
}

/// What one collection looked like, as a value.
pub struct Looked {
    pub name: Seq<char>,
    pub here: nat,
    pub server: nat,
    pub reachable: nat,
}

impl View for Survey {
    type V = Looked;

    open spec fn view(&self) -> Looked {
        Looked {
            name: self.name@,
            here: self.here as nat,
            server: self.server as nat,
            reachable: self.reachable as nat,
        }
    }
}

/// The whole plan, ready to be shown before anything moves, and complete enough to
/// be carried out later exactly as it was shown.
#[derive(Debug)]
pub struct Plan {
    pub items: Vec<Item>,
    /// How many collections already agree.
    pub agreeing: usize,
    /// Every collection looked at, in the order they were looked at.
    pub surveyed: Vec<Survey>,
    /// Collections that need no work, and what they agree on. Recorded every time,
    /// even though nothing moves: without it the first star taken off an agreeing
    /// list reads as a list never synced, which puts the star straight back.
    pub already: Vec<(String, BTreeSet<i64>)>,
    /// The games on the card the plan was made against.
    pub known: Vec<Known>,
    /// Lists left out because their card side could not be read, with why. Never
    /// read as empty: that is every star in the list taken off.
    pub unread: Vec<String>,
}

/// What some lists agree on, as values.
pub open spec fn agreements(v: Seq<(String, BTreeSet<i64>)>) -> Seq<(Seq<char>, Set<i64>)> {
    v.map_values(|p: (String, BTreeSet<i64>)| (p.0@, p.1@))
}

/// A plan, as a value.
pub struct Planned {
    pub items: Seq<Work>,
    pub agreeing: nat,
    pub surveyed: Seq<Looked>,
    pub already: Seq<(Seq<char>, Set<i64>)>,
    pub known: Seq<favmap::OnCard>,
    pub unread: Seq<Seq<char>>,
}

impl View for Plan {
    type V = Planned;

    open spec fn view(&self) -> Planned {
        Planned {
            items: works(self.items@),
            agreeing: self.agreeing as nat,
            surveyed: self.surveyed@.map_values(|s: Survey| s@),
            already: agreements(self.already@),
            known: favmap::cards(self.known@),
            unread: text::texts(self.unread@),
        }
    }
}

impl Default for Plan {
    fn default() -> (r: Plan)
        ensures
            r.items@.len() == 0,
            r.agreeing == 0,
            r.surveyed@.len() == 0,
            r.already@.len() == 0,
            r.known@.len() == 0,
            r.unread@.len() == 0,
    {
        Plan {
            items: Vec::new(),
            agreeing: 0,
            surveyed: Vec::new(),
            already: Vec::new(),
            known: Vec::new(),
            unread: Vec::new(),
        }
    }
}

/// How many moves of one kind some items have.
pub open spec fn moves_in(items: Seq<Work>, f: spec_fn(Move) -> bool) -> nat
    decreases items.len(),
{
    if items.len() == 0 {
        0
    } else {
        moves_in(items.drop_last(), f) + tally(items.last().moves, f)
    }
}

/// How many moves some items have.
pub open spec fn all_moves(items: Seq<Work>) -> nat
    decreases items.len(),
{
    if items.len() == 0 {
        0
    } else {
        all_moves(items.drop_last()) + items.last().moves.len()
    }
}

/// What a plan says of the way things are going.
pub open spec fn way(items: Seq<Work>, agreeing: nat) -> Seq<char> {
    let here = moves_in(items, made_here());
    let there = (all_moves(items) - here) as nat;
    if items.len() == 0 {
        if agreeing == 0 {
            "no collections to sync"@
        } else {
            "nothing to do — "@ + number::decimal(agreeing) + " lists already match"@
        }
    } else if here == 0 {
        number::decimal(there) + " to send"@
    } else if there == 0 {
        number::decimal(here) + " to apply here"@
    } else {
        number::decimal(here) + " to apply here, "@ + number::decimal(there) + " to send"@
    }
}

/// The list that a line about one names: what stands before the first colon.
pub open spec fn list_named(line: Seq<char>) -> Seq<char> {
    match text::find(line, ": "@) {
        Some(i) => line.take(i),
        None => line,
    }
}

/// What a plan says first.
pub open spec fn headline_of(p: Planned) -> Seq<char> {
    way(p.items, p.agreeing) + (if p.unread.len() == 0 {
        Seq::empty()
    } else {
        " — could not read "@ + text::join(p.unread.map_values(|l: Seq<char>| list_named(l)), ", "@)
    }) + (if objection(p.items) is None {
        Seq::empty()
    } else {
        " — too many unstars, refused"@
    })
}

/// How many games a list had before an item is carried out: what is agreed
/// afterwards, without the stars that the item adds and with those it takes off.
pub open spec fn had(w: Work) -> nat {
    let with = w.agreed.len() + tally(w.moves, unstar());
    let added = tally(w.moves, star());
    if with >= added {
        (with - added) as nat
    } else {
        0
    }
}

/// Whether an item takes too much of its list off at once: more than a few games,
/// and more than half of those the list had.
pub open spec fn empties(w: Work) -> bool {
    tally(w.moves, unstar()) > FEW && 2 * tally(w.moves, unstar()) > had(w)
}

/// The item that takes the most of its list off, among those that take too much;
/// the last of them where several do.
pub open spec fn worst(items: Seq<Work>) -> Option<Work>
    decreases items.len(),
{
    if items.len() == 0 {
        None
    } else {
        let before = worst(items.drop_last());
        let w = items.last();
        if !empties(w) {
            before
        } else {
            match before {
                None => Some(w),
                Some(b) => if tally(w.moves, unstar()) >= tally(b.moves, unstar()) {
                    Some(w)
                } else {
                    Some(b)
                },
            }
        }
    }
}

/// Why a plan must not be carried out without being insisted on, if it must not.
pub open spec fn objection(items: Seq<Work>) -> Option<Seq<char>> {
    let total = moves_in(items, unstar());
    if total <= MAX_UNSTARS && worst(items) is None {
        None
    } else {
        Some(
            "refused: this would take "@ + number::decimal(total) + " stars off at once"@ + (match worst(items) {
                Some(w) => ", "@ + number::decimal(tally(w.moves, unstar())) + " of the "@ + number::decimal(
                    had(w),
                ) + " in "@ + w.name,
                None => Seq::empty(),
            }) + ". If that is meant, run moose-patch --stars-apply --anyway over ssh"@,
        )
    }
}

/// The names of the items that are held as files.
pub open spec fn file_names(items: Seq<Work>) -> Seq<Seq<char>>
    decreases items.len(),
{
    if items.len() == 0 {
        Seq::empty()
    } else {
        let before = file_names(items.drop_last());
        if items.last().held is File {
            before.push(items.last().name)
        } else {
            before
        }
    }
}

proof fn lemma_tally_bound(moves: Seq<Move>, f: spec_fn(Move) -> bool)
    ensures
        tally(moves, f) <= moves.len(),
    decreases moves.len(),
{
    if moves.len() > 0 {
        lemma_tally_bound(moves.drop_last(), f);
    }
}

/// Every move adds a star or takes one off.
proof fn lemma_tallies(moves: Seq<Move>)
    ensures
        tally(moves, star()) + tally(moves, unstar()) == moves.len(),
    decreases moves.len(),
{
    if moves.len() > 0 {
        lemma_tallies(moves.drop_last());
    }
}

proof fn lemma_here_bound(items: Seq<Work>)
    ensures
        moves_in(items, made_here()) <= all_moves(items),
    decreases items.len(),
{
    if items.len() > 0 {
        lemma_here_bound(items.drop_last());
        lemma_tally_bound(items.last().moves, made_here());
    }
}

fn named_list(line: &str) -> (r: String)
    ensures
        r@ == list_named(line@),
{
    let t = text::chars_of(line);
    let p = text::chars_of(": ");
    match text::position_from(&t, &p, 0) {
        Some(i) => {
            proof {
                text::lemma_find_from(t@, p@, 0);
                assert(t@.subrange(0, i as int) =~= t@.take(i as int));
            }
            text::part(&t, 0, i)
        },
        None => text::owned(line),
    }
}

impl Plan {
    /// Whether nothing needs doing.
    pub fn is_empty(&self) -> (r: bool)
        ensures
            r == (self@.items.len() == 0),
    {
        self.items.len() == 0
    }

    /// How many moves there are.
    pub fn total(&self) -> (r: u128)
        ensures
            r == all_moves(self@.items),
    {
        let ghost all = self@.items;
        let mut n: u128 = 0;
        let mut i: usize = 0;
        while i < self.items.len()
            invariant
                all == self@.items,
                i <= self.items@.len(),
                n == all_moves(all.take(i as int)),
                n <= i * usize::MAX,
            decreases self.items@.len() - i,
        {
            proof {
                assert(all.take(i + 1).drop_last() =~= all.take(i as int));
                assert(all[i as int] == self.items@[i as int]@);
                number::lemma_sizes_fit(i as int);
            }
            n += self.items[i].moves.len() as u128;
            i += 1;
        }
        assert(all.take(i as int) =~= all);
        n
    }

    fn here(&self) -> (r: u128)
        ensures
            r == moves_in(self@.items, made_here()),
    {
        let ghost all = self@.items;
        let mut n: u128 = 0;
        let mut i: usize = 0;
        while i < self.items.len()
            invariant
                all == self@.items,
                i <= self.items@.len(),
                n == moves_in(all.take(i as int), made_here()),
                n <= i * usize::MAX,
            decreases self.items@.len() - i,
        {
            proof {
                assert(all.take(i + 1).drop_last() =~= all.take(i as int));
                assert(all[i as int] == self.items@[i as int]@);
                number::lemma_sizes_fit(i as int);
            }
            n += self.items[i].here() as u128;
            i += 1;
        }
        assert(all.take(i as int) =~= all);
        n
    }

    fn unstars(&self) -> (r: u128)
        ensures
            r == moves_in(self@.items, unstar()),
    {
        let ghost all = self@.items;
        let mut n: u128 = 0;
        let mut i: usize = 0;
        while i < self.items.len()
            invariant
                all == self@.items,
                i <= self.items@.len(),
                n == moves_in(all.take(i as int), unstar()),
                n <= i * usize::MAX,
            decreases self.items@.len() - i,
        {
            proof {
                assert(all.take(i + 1).drop_last() =~= all.take(i as int));
                assert(all[i as int] == self.items@[i as int]@);
                number::lemma_sizes_fit(i as int);
            }
            n += self.items[i].unstars() as u128;
            i += 1;
        }
        assert(all.take(i as int) =~= all);
        n
    }

    fn worst(&self) -> (r: Option<&Item>)
        ensures
            match r {
                Some(i) => worst(self@.items) == Some(i@),
                None => worst(self@.items) is None,
            },
    {
        let ghost all = self@.items;
        let mut best: Option<usize> = None;
        let mut i: usize = 0;
        while i < self.items.len()
            invariant
                all == self@.items,
                i <= self.items@.len(),
                match best {
                    Some(k) => k < i && worst(all.take(i as int)) == Some(self.items@[k as int]@),
                    None => worst(all.take(i as int)) is None,
                },
            decreases self.items@.len() - i,
        {
            proof {
                assert(all.take(i + 1).drop_last() =~= all.take(i as int));
                assert(all[i as int] == self.items@[i as int]@);
            }
            let n: usize = self.items[i].unstars();
            if n as u128 > FEW && 2 * n as u128 > self.items[i].before() {
                let beaten = match best {
                    Some(k) => n >= self.items[k].unstars(),
                    None => true,
                };
                if beaten {
                    best = Some(i);
                }
            }
            i += 1;
        }
        assert(all.take(i as int) =~= all);
        match best {
            Some(k) => Some(&self.items[k]),
            None => None,
        }
    }

    /// One line for the top of the panel.
    pub fn headline(&self) -> (r: String)
        ensures
            r@ == headline_of(self@),
    {
        let mut line: String;
        if self.is_empty() {
            if self.agreeing == 0 {
                line = text::owned("no collections to sync");
            } else {
                line = text::owned("nothing to do — ");
                let n = number::decimal_of(self.agreeing as u128);
                line.append(&n);
                line.append(" lists already match");
            }
        } else {
            let here: u128 = self.here();
            let all: u128 = self.total();
            proof {
                lemma_here_bound(self@.items);
            }
            let there: u128 = all - here;
            if here == 0 {
                line = number::decimal_of(there);
                line.append(" to send");
            } else if there == 0 {
                line = number::decimal_of(here);
                line.append(" to apply here");
            } else {
                line = number::decimal_of(here);
                line.append(" to apply here, ");
                let n = number::decimal_of(there);
                line.append(&n);
                line.append(" to send");
            }
        }
        assert(line@ == way(self@.items, self@.agreeing));
        if self.unread.len() > 0 {
            let ghost all = text::texts(self.unread@);
            let ghost f = |l: Seq<char>| list_named(l);
            let mut names: Vec<String> = Vec::new();
            let mut i: usize = 0;
            while i < self.unread.len()
                invariant
                    all == text::texts(self.unread@),
                    i <= self.unread@.len(),
                    names@.len() == i,
                    forall|k: int| 0 <= k < i ==> (#[trigger] names@[k])@ == list_named(all[k]),
                decreases self.unread@.len() - i,
            {
                assert(all[i as int] == self.unread@[i as int]@);
                names.push(named_list(&self.unread[i]));
                i += 1;
            }
            assert(text::texts(names@) =~= all.map_values(f));
            line.append(" — could not read ");
            let l = text::joined(&names, ", ");
            line.append(&l);
        }
        if self.too_many_unstars().is_some() {
            line.append(" — too many unstars, refused");
        }
        assert(line@ =~= headline_of(self@));
        line
    }

    /// Why this plan must not be carried out without being insisted on, if it must
    /// not.
    ///
    /// A list emptying on one side is what a file that could not be parsed or
    /// read, or a baseline of numbers that name nothing now, looks like.
    pub fn too_many_unstars(&self) -> (r: Option<String>)
        ensures
            text::opt(r) == objection(self@.items),
    {
        let total: u128 = self.unstars();
        let most = self.worst();
        if total <= MAX_UNSTARS && most.is_none() {
            return None;
        }
        let mut why = text::owned("refused: this would take ");
        let n = number::decimal_of(total);
        why.append(&n);
        why.append(" stars off at once");
        if let Some(i) = most {
            let off: usize = i.unstars();
            why.append(", ");
            let a = number::decimal_of(off as u128);
            why.append(&a);
            why.append(" of the ");
            let b = number::decimal_of(i.before());
            why.append(&b);
            why.append(" in ");
            why.append(&i.name);
        }
        why.append(". If that is meant, run moose-patch --stars-apply --anyway over ssh");
        assert(why@ =~= objection(self@.items)->0);
        Some(why)
    }

    /// The lists held as collection files.
    pub fn files(&self) -> (r: Vec<String>)
        ensures
            text::texts(r@) == file_names(self@.items),
    {
        let ghost all = self@.items;
        let mut out: Vec<String> = Vec::new();
        let mut i: usize = 0;
        assert(text::texts(out@) =~= file_names(all.take(0)));
        while i < self.items.len()
            invariant
                all == self@.items,
                i <= self.items@.len(),
                text::texts(out@) == file_names(all.take(i as int)),
            decreases self.items@.len() - i,
        {
            let ghost before = out@;
            proof {
                assert(all.take(i + 1).drop_last() =~= all.take(i as int));
                assert(all[i as int] == self.items@[i as int]@);
            }
            if self.items[i].is_file() {
                let n = text::owned(&self.items[i].name);
                out.push(n);
                assert(text::texts(out@) =~= text::texts(before).push(n@));
            }
            i += 1;
        }
        assert(all.take(i as int) =~= all);
        out
    }

    /// Whether carrying this out writes a file EmulationStation keeps in memory: a
    /// gamelist, a collection file, or its settings.
    pub fn writes_card(&self, disk: &Disk, es: &EsPaths) -> (r: Result<bool, Failure>)
        ensures
            moves_in(self@.items, made_here()) > 0 ==> r == Ok::<bool, Failure>(true),
            moves_in(self@.items, made_here()) == 0 ==> ({
                let files = file_names(self@.items);
                let seen = disk::whole_text(disk.at(es.settings@), es.settings@);
                let shown = eslist::shown(eslist::settings_at(disk.at(es.settings@), es.settings@));
                match r {
                    Err(e) => files.len() > 0 && seen == Err::<Option<Seq<char>>, Seq<Seq<char>>>(e@),
                    Ok(b) => (files.len() > 0 ==> seen is Ok) && b == (files.len() > 0
                        && !eslist::es_names(files).to_set().subset_of(shown.to_set())),
                }
            }),
    {
        if self.here() > 0 {
            return Ok(true);
        }
        let files = self.files();
        assert(text::texts(files@).len() == files@.len());
        match eslist::settings_showing(disk, &es.settings, &files) {
            Ok(next) => Ok(next.is_some()),
            Err(e) => Err(e),
        }
    }
}

// ---------------------------------------------------------------------------
// Planning
// ---------------------------------------------------------------------------

/// The numbers of a folder's starred files.
pub open spec fn starred_ids(
    folder: Seq<char>,
    files: Set<Seq<char>>,
    index: Map<(Seq<char>, Seq<char>), i64>,
) -> Set<i64> {
    Set::new(
        |id: i64|
            exists|f: Seq<char>|
                #[trigger] files.contains(f) && index.contains_key((folder, f)) && index[(folder, f)] == id,
    )
}

/// The games ES has starred, across a set of system folders. A folder with no
/// gamelist has no stars; a gamelist that cannot be read is an error.
pub open spec fn stars_in(
    d: spec_fn(Seq<char>) -> disk::Seen,
    roms: Seq<char>,
    folders: Seq<Seq<char>>,
    index: Map<(Seq<char>, Seq<char>), i64>,
) -> Result<Set<i64>, Seq<Seq<char>>>
    decreases folders.len(),
{
    if folders.len() == 0 {
        Ok(Set::empty())
    } else {
        let path = favmap::gamelist_path(roms, folders.last());
        match stars_in(d, roms, folders.drop_last(), index) {
            Err(e) => Err(e),
            Ok(before) => match disk::whole_text(d(path), path) {
                Err(e) => Err(e),
                Ok(None) => Ok(before),
                Ok(Some(t)) => Ok(
                    before.union(
                        starred_ids(folders.last(), gamelist::favorite_files(gamelist::games(t)), index),
                    ),
                ),
            },
        }
    }
}

/// Whether a path of a collection file is that of a game.
pub open spec fn is_game_at(
    roms: Seq<char>,
    index: Map<(Seq<char>, Seq<char>), i64>,
    p: Seq<char>,
    id: i64,
) -> bool {
    match favmap::located(roms, p) {
        Some(k) => index.contains_key(k) && index[k] == id,
        None => false,
    }
}

/// The games that the lines of a collection file are about.
pub open spec fn members_in(
    roms: Seq<char>,
    ls: Seq<Seq<char>>,
    index: Map<(Seq<char>, Seq<char>), i64>,
) -> Set<i64> {
    Set::new(|id: i64| exists|p: Seq<char>| #[trigger] eslist::writes(ls, p) && is_game_at(roms, index, p, id))
}

/// The games a collection file lists. A missing file is an empty list; one that
/// cannot be read is an error.
pub open spec fn members_at(
    d: spec_fn(Seq<char>) -> disk::Seen,
    roms: Seq<char>,
    path: Seq<char>,
    index: Map<(Seq<char>, Seq<char>), i64>,
) -> Result<Set<i64>, Seq<Seq<char>>> {
    match disk::whole_text(d(path), path) {
        Err(e) => Err(e),
        Ok(None) => Ok(Set::empty()),
        Ok(Some(t)) => Ok(members_in(roms, lines::lines(t), index)),
    }
}

/// What a plan is made from, besides the collections.
pub struct Sides {
    pub disk: spec_fn(Seq<char>) -> disk::Seen,
    pub roms: Seq<char>,
    pub collections: Seq<char>,
    pub known: Seq<favmap::OnCard>,
    pub base: Map<Seq<char>, BTreeSet<i64>>,
    pub mapping: Seq<(String, String)>,
}

/// What a list holds on the card.
pub open spec fn held_here(s: Sides, kept: Kept, name: Seq<char>) -> Result<Set<i64>, Seq<Seq<char>>> {
    let index = favmap::file_map(s.known);
    match kept {
        Kept::Stars(folders) => stars_in(s.disk, s.roms, folders, index),
        Kept::File => members_at(s.disk, s.roms, favmap::collection_path(s.collections, name), index),
    }
}

/// A plan with one more collection looked at.
pub open spec fn with_collection(s: Sides, p: Planned, c: Collection) -> Planned {
    let on_card = favmap::numbers(s.known);
    let kept = kept_as(c.name@, favmap::folder_list(s.known), s.mapping);
    let server = c.rom_ids@.to_set();
    if c.is_smart || c.is_virtual {
        p
    } else {
        match held_here(s, kept, c.name@) {
            Err(e) => Planned { unread: p.unread.push(c.name@ + ": "@ + text::join(e, ": "@)), ..p },
            Ok(here) => {
                let moves = favsync::moves_for(here, server, favsync::base_of(s.base, c.id@), on_card);
                let agreed = favsync::agreed_on(here, server, moves, on_card);
                let surveyed = p.surveyed.push(
                    Looked {
                        name: c.name@,
                        here: here.len(),
                        server: server.len(),
                        reachable: server.intersect(on_card).len(),
                    },
                );
                if moves.len() == 0 {
                    Planned {
                        surveyed,
                        agreeing: p.agreeing + 1,
                        already: p.already.push((c.id@, agreed)),
                        ..p
                    }
                } else {
                    Planned {
                        surveyed,
                        items: p.items.push(Work { id: c.id@, name: c.name@, held: kept, moves, agreed }),
                        ..p
                    }
                }
            },
        }
    }
}

/// A plan in which nothing has been looked at, made against some games.
pub open spec fn no_plan(known: Seq<favmap::OnCard>) -> Planned {
    Planned {
        items: Seq::empty(),
        agreeing: 0,
        surveyed: Seq::empty(),
        already: Seq::empty(),
        known,
        unread: Seq::empty(),
    }
}

/// A plan with the collections looked at in turn.
pub open spec fn looked_at(s: Sides, cs: Seq<Collection>) -> Planned
    decreases cs.len(),
{
    if cs.len() == 0 {
        no_plan(s.known)
    } else {
        with_collection(s, looked_at(s, cs.drop_last()), cs.last())
    }
}

/// Whether an item stands before another: the one with more moves, or, with as
/// many, the one whose name comes first.
pub open spec fn ahead(a: Work, b: Work) -> bool {
    a.moves.len() > b.moves.len() || (a.moves.len() == b.moves.len() && order::less(a.name, b.name))
}

/// Items in order with one more put in behind those it does not stand before.
pub open spec fn put_in(items: Seq<Work>, w: Work) -> Seq<Work>
    decreases items.len(),
{
    if items.len() > 0 && ahead(w, items.last()) {
        put_in(items.drop_last(), w).push(items.last())
    } else {
        items.push(w)
    }
}

/// Items in order: the biggest first.
pub open spec fn in_order(items: Seq<Work>) -> Seq<Work>
    decreases items.len(),
{
    if items.len() == 0 {
        Seq::empty()
    } else {
        put_in(in_order(items.drop_last()), items.last())
    }
}

/// The plan for some collections.
pub open spec fn plan_for(s: Sides, cs: Seq<Collection>) -> Planned {
    let p = looked_at(s, cs);
    Planned { items: in_order(p.items), ..p }
}

/// What a plan is made from.
pub open spec fn sides(
    disk: Disk,
    es: EsPaths,
    known: Seq<Known>,
    baseline: Baseline,
    platform: Platform,
) -> Sides {
    Sides {
        disk: disk.all(),
        roms: es.roms@,
        collections: es.collections@,
        known: favmap::cards(known),
        base: baseline.agreed@,
        mapping: platform.folders@,
    }
}

fn add_starred(
    out: &mut BTreeSet<i64>,
    folder: &str,
    files: &Vec<String>,
    index: &Table<FileKey, i64>,
)
    ensures
        final(out)@ == old(out)@.union(starred_ids(folder@, text::texts(files@).to_set(), index@)),
{
    let ghost all = text::texts(files@);
    let ghost start = out@;
    let mut i: usize = 0;
    while i < files.len()
        invariant
            all == text::texts(files@),
            i <= files@.len(),
            forall|id: i64|
                #[trigger] out@.contains(id) <==> start.contains(id) || exists|k: int|
                    0 <= k < i && index@.contains_key((folder@, #[trigger] all[k])) && index@[(folder@, all[k])]
                        == id,
        decreases files@.len() - i,
    {
        let ghost before = out@;
        let ghost n = i as int;
        let key = FileKey { folder: text::owned(folder), path: text::owned(&files[i]) };
        proof {
            assert(all[n] == files@[n]@);
        }
        if let Some(id) = index.get(&key) {
            let _ = out.insert(*id);
        }
        i += 1;
        proof {
            assert forall|id: i64| #[trigger] out@.contains(id) <==> start.contains(id) || exists|k: int|
                0 <= k < i && index@.contains_key((folder@, #[trigger] all[k])) && index@[(folder@, all[k])] == id by {
                assert(before.contains(id) <==> start.contains(id) || exists|k: int|
                    0 <= k < n && index@.contains_key((folder@, #[trigger] all[k])) && index@[(folder@, all[k])]
                        == id);
            }
        }
    }
    proof {
        let ids = starred_ids(folder@, all.to_set(), index@);
        assert forall|id: i64| out@.contains(id) <==> start.union(ids).contains(id) by {
            if exists|k: int|
                0 <= k < i && index@.contains_key((folder@, #[trigger] all[k])) && index@[(folder@, all[k])] == id {
                let k = choose|k: int|
                    0 <= k < i && index@.contains_key((folder@, #[trigger] all[k])) && index@[(folder@, all[k])]
                        == id;
                assert(all.to_set().contains(all[k]));
            }
            if ids.contains(id) {
                let f = choose|f: Seq<char>|
                    #[trigger] all.to_set().contains(f) && index@.contains_key((folder@, f)) && index@[(folder@, f)]
                        == id;
                let k = choose|k: int| 0 <= k < all.len() && all[k] == f;
                assert(index@.contains_key((folder@, all[k])));
            }
        }
        assert(out@ =~= start.union(ids));
    }
}

/// The games ES has starred, across a set of system folders.
///
/// A folder with no gamelist has no stars. A gamelist that cannot be read is an
/// error for the list, not an empty one.
pub fn stars_on_card(
    disk: &Disk,
    es: &EsPaths,
    folders: &Vec<String>,
    index: &Table<FileKey, i64>,
) -> (r: Result<BTreeSet<i64>, Failure>)
    ensures
        match r {
            Ok(ids) => stars_in(disk.all(), es.roms@, text::texts(folders@), index@) == Ok::<
                Set<i64>,
                Seq<Seq<char>>,
            >(ids@),
            Err(e) => stars_in(disk.all(), es.roms@, text::texts(folders@), index@) == Err::<
                Set<i64>,
                Seq<Seq<char>>,
            >(e@),
        },
{
    let ghost all = text::texts(folders@);
    let ghost d = disk.all();
    let mut out: BTreeSet<i64> = BTreeSet::new();
    let mut i: usize = 0;
    while i < folders.len()
        invariant
            all == text::texts(folders@),
            d == disk.all(),
            i <= folders@.len(),
            stars_in(d, es.roms@, all.take(i as int), index@) == Ok::<Set<i64>, Seq<Seq<char>>>(out@),
        decreases folders@.len() - i,
    {
        let path = es.gamelist(&folders[i]);
        let ghost n = i as int;
        proof {
            assert(all.take(n + 1).drop_last() =~= all.take(n));
            assert(all[n] == folders@[n]@);
            assert(d(path@) == disk.at(path@));
        }
        match Gamelist::load_if_present(disk, &path) {
            Err(e) => {
                proof {
                    lemma_stars_error(d, es.roms@, all, index@, n + 1);
                }
                return Err(e);
            },
            Ok(None) => {},
            Ok(Some(list)) => {
                let files = list.favorites();
                add_starred(&mut out, &folders[i], &files, index);
            },
        }
        i += 1;
    }
    assert(all.take(i as int) =~= all);
    Ok(out)
}

proof fn lemma_stars_error(
    d: spec_fn(Seq<char>) -> disk::Seen,
    roms: Seq<char>,
    folders: Seq<Seq<char>>,
    index: Map<(Seq<char>, Seq<char>), i64>,
    n: int,
)
    requires
        0 <= n <= folders.len(),
        stars_in(d, roms, folders.take(n), index) is Err,
    ensures
        stars_in(d, roms, folders, index) == stars_in(d, roms, folders.take(n), index),
    decreases folders.len() - n,
{
    if n < folders.len() {
        assert(folders.take(n + 1).drop_last() =~= folders.take(n));
        lemma_stars_error(d, roms, folders, index, n + 1);
    } else {
        assert(folders.take(n) =~= folders);
    }
}

proof fn lemma_entries_are_written(ls: Seq<Seq<char>>, entries: Seq<Seq<char>>)
    requires
        eslist::entries_read(ls, entries),
    ensures
        forall|p: Seq<char>| #[trigger] eslist::writes(ls, p) <==> entries.contains(p),
{
    assert forall|p: Seq<char>| #[trigger] eslist::writes(ls, p) implies entries.contains(p) by {
        let k = choose|k: int| eslist::first_written(ls, p, k);
        assert(eslist::is_entry(ls[k]));
        let i = choose|i: int|
            0 <= i < entries.len() && crate::paths::components(#[trigger] entries[i]) == crate::paths::components(p);
        let q = entries[i];
        assert(eslist::writes(ls, q));
        let m = choose|m: int| eslist::first_written(ls, q, m);
        if k < m {
            assert(ls.take(m)[k] == ls[k]);
            assert(eslist::lists(ls.take(m), q));
        }
        if m < k {
            assert(ls.take(k)[m] == ls[m]);
            assert(eslist::lists(ls.take(k), p));
        }
        assert(entries[i] == p);
    }
    assert forall|p: Seq<char>| entries.contains(p) implies #[trigger] eslist::writes(ls, p) by {
        let i = choose|i: int| 0 <= i < entries.len() && entries[i] == p;
        assert(eslist::writes(ls, entries[i]));
    }
}

/// The games a collection file lists.
///
/// A missing file is an empty list; one that cannot be read is an error.
pub fn members_of_file(
    disk: &Disk,
    es: &EsPaths,
    name: &str,
    index: &Table<FileKey, i64>,
) -> (r: Result<BTreeSet<i64>, Failure>)
    ensures
        match r {
            Ok(ids) => members_at(
                disk.all(),
                es.roms@,
                favmap::collection_path(es.collections@, name@),
                index@,
            ) == Ok::<Set<i64>, Seq<Seq<char>>>(ids@),
            Err(e) => members_at(
                disk.all(),
                es.roms@,
                favmap::collection_path(es.collections@, name@),
                index@,
            ) == Err::<Set<i64>, Seq<Seq<char>>>(e@),
        },
{
    let path = es.collection(name);
    let file = match CollectionFile::load(disk, &path) {
        Ok(f) => f,
        Err(e) => {
            return Err(e);
        },
    };
    let ghost entries = file.entries.list();
    let items = file.entries.items();
    let mut out: BTreeSet<i64> = BTreeSet::new();
    let mut i: usize = 0;
    while i < items.len()
        invariant
            entries == text::texts(items@),
            i <= items@.len(),
            forall|id: i64|
                #[trigger] out@.contains(id) <==> exists|k: int|
                    0 <= k < i && is_game_at(es.roms@, index@, #[trigger] entries[k], id),
        decreases items@.len() - i,
    {
        let ghost before = out@;
        let ghost n = i as int;
        proof {
            assert(entries[n] == items@[n]@);
        }
        if let Some((folder, inside)) = es.locate(&items[i]) {
            let key = FileKey { folder, path: inside };
            if let Some(id) = index.get(&key) {
                let _ = out.insert(*id);
            }
        }
        i += 1;
        proof {
            assert forall|id: i64| #[trigger] out@.contains(id) <==> exists|k: int|
                0 <= k < i && is_game_at(es.roms@, index@, #[trigger] entries[k], id) by {
                assert(before.contains(id) <==> exists|k: int|
                    0 <= k < n && is_game_at(es.roms@, index@, #[trigger] entries[k], id));
            }
        }
    }
    proof {
        let d = disk.all();
        assert(d(path@) == disk.at(path@));
        if let Ok(Some(t)) = disk::whole_text(disk.at(path@), path@) {
            let ls = lines::lines(t);
            lemma_entries_are_written(ls, entries);
            let want = members_in(es.roms@, ls, index@);
            assert forall|id: i64| out@.contains(id) <==> want.contains(id) by {
                if out@.contains(id) {
                    let k = choose|k: int| 0 <= k < i && is_game_at(es.roms@, index@, #[trigger] entries[k], id);
                    assert(entries.contains(entries[k]));
                    assert(eslist::writes(ls, entries[k]));
                }
                if want.contains(id) {
                    let p = choose|p: Seq<char>|
                        #[trigger] eslist::writes(ls, p) && is_game_at(es.roms@, index@, p, id);
                    let k = choose|k: int| 0 <= k < entries.len() && entries[k] == p;
                    assert(is_game_at(es.roms@, index@, entries[k], id));
                }
            }
            assert(out@ =~= want);
        } else {
            assert(entries.len() == 0);
            assert(out@ =~= Set::empty());
        }
    }
    Ok(out)
}

fn set_of(ids: &Vec<i64>) -> (r: BTreeSet<i64>)
    ensures
        r@ == ids@.to_set(),
{
    let mut out: BTreeSet<i64> = BTreeSet::new();
    let mut i: usize = 0;
    assert(out@ =~= ids@.take(0).to_set());
    while i < ids.len()
        invariant
            i <= ids@.len(),
            out@ == ids@.take(i as int).to_set(),
        decreases ids@.len() - i,
    {
        proof {
            assert(ids@.take(i + 1) =~= ids@.take(i as int).push(ids@[i as int]));
            ids@.take(i as int).lemma_push_to_set_commute(ids@[i as int]);
        }
        let _ = out.insert(ids[i]);
        i += 1;
    }
    assert(ids@.take(i as int) =~= ids@);
    out
}

fn common(a: &BTreeSet<i64>, b: &BTreeSet<i64>) -> (r: usize)
    ensures
        r == a@.intersect(b@).len(),
{
    let ids = favsync::listed(a);
    let mut out: BTreeSet<i64> = BTreeSet::new();
    let mut i: usize = 0;
    while i < ids.len()
        invariant
            favsync::listing(a@, ids@),
            i <= ids@.len(),
            forall|x: i64|
                #[trigger] out@.contains(x) <==> b@.contains(x) && exists|k: int| 0 <= k < i && #[trigger] ids@[k] == x,
        decreases ids@.len() - i,
    {
        let ghost before = out@;
        let ghost n = i as int;
        if b.contains(&ids[i]) {
            let _ = out.insert(ids[i]);
        }
        i += 1;
        proof {
            assert forall|x: i64| #[trigger] out@.contains(x) <==> b@.contains(x) && exists|k: int|
                0 <= k < i && #[trigger] ids@[k] == x by {
                assert(before.contains(x) <==> b@.contains(x) && exists|k: int| 0 <= k < n && #[trigger] ids@[k] == x);
            }
        }
    }
    proof {
        assert forall|x: i64| out@.contains(x) <==> a@.intersect(b@).contains(x) by {
            if a@.contains(x) {
                assert(ids@.contains(x));
                let k = choose|k: int| 0 <= k < ids@.len() && ids@[k] == x;
                assert(ids@[k] == x);
            }
        }
        assert(out@ =~= a@.intersect(b@));
    }
    out.len()
}

fn stands_ahead(a: &Item, b: &Item) -> (r: bool)
    ensures
        r == ahead(a@, b@),
{
    a.moves.len() > b.moves.len() || (a.moves.len() == b.moves.len() && order::is_less(&a.name, &b.name))
}

proof fn lemma_put_in(items: Seq<Work>, w: Work, i: int)
    requires
        0 <= i <= items.len(),
        forall|k: int| i <= k < items.len() ==> ahead(w, #[trigger] items[k]),
        i > 0 ==> !ahead(w, items[i - 1]),
    ensures
        put_in(items, w) == items.insert(i, w),
    decreases items.len(),
{
    if i < items.len() {
        let front = items.drop_last();
        assert forall|k: int| i <= k < front.len() implies ahead(w, #[trigger] front[k]) by {
            assert(front[k] == items[k]);
        }
        assert(ahead(w, items[items.len() - 1]));
        lemma_put_in(front, w, i);
        assert(front.insert(i, w).push(items.last()) =~= items.insert(i, w));
    } else {
        assert(items.insert(i, w) =~= items.push(w));
    }
}

fn put_item(items: &mut Vec<Item>, item: Item)
    ensures
        works(final(items)@) == put_in(works(old(items)@), item@),
{
    let ghost before = works(items@);
    let ghost was = items@;
    let mut i: usize = items.len();
    while i > 0 && stands_ahead(&item, &items[i - 1])
        invariant
            i <= items@.len(),
            items@ == was,
            before == works(items@),
            forall|k: int| i <= k < items@.len() ==> ahead(item@, #[trigger] before[k]),
        decreases i,
    {
        i -= 1;
        assert(before[i as int] == items@[i as int]@);
    }
    proof {
        if i > 0 {
            assert(before[i - 1] == items@[i - 1]@);
        }
        lemma_put_in(before, item@, i as int);
    }
    let ghost w = item@;
    items.insert(i, item);
    assert(works(items@) =~= before.insert(i as int, w));
}

proof fn lemma_order_of_push(items: Seq<Work>, w: Work)
    ensures
        in_order(items.push(w)) == put_in(in_order(items), w),
{
    assert(items.push(w).drop_last() =~= items);
}

fn said_of(name: &str, e: &Failure) -> (r: String)
    ensures
        r@ == name@ + ": "@ + text::join(e@, ": "@),
{
    let mut s = text::owned(name);
    s.append(": ");
    let all = e.full();
    s.append(&all);
    s
}

fn look_at(
    plan: &mut Plan,
    c: &Collection,
    es: &EsPaths,
    folders: &Vec<String>,
    on_card: &BTreeSet<i64>,
    index: &Table<FileKey, i64>,
    baseline: &Baseline,
    platform: &Platform,
    disk: &Disk,
    Ghost(s): Ghost<Sides>,
    Ghost(before): Ghost<Planned>,
)
    requires
        s.disk == disk.all(),
        s.roms == es.roms@,
        s.collections == es.collections@,
        s.base == baseline.agreed@,
        s.mapping == platform.folders@,
        text::texts(folders@) == favmap::folder_list(s.known),
        on_card@ == favmap::numbers(s.known),
        index@ == favmap::file_map(s.known),
        old(plan)@ == (Planned { items: in_order(before.items), ..before }),
        old(plan).agreeing < usize::MAX,
    ensures
        ({
            let next = with_collection(s, before, *c);
            final(plan)@ == (Planned { items: in_order(next.items), ..next })
        }),
        final(plan).agreeing <= old(plan).agreeing + 1,
        final(plan).known == old(plan).known,
{
    if c.is_smart || c.is_virtual {
        return ;
    }
    let held = held_as(c, folders, platform);
    let here = match &held {
        Held::Stars(some) => stars_on_card(disk, es, some, index),
        Held::File => members_of_file(disk, es, &c.name, index),
    };
    let here = match here {
        Ok(h) => h,
        Err(e) => {
            let line = said_of(&c.name, &e);
            let ghost was = plan.unread@;
            plan.unread.push(line);
            assert(text::texts(plan.unread@) =~= text::texts(was).push(line@));
            return ;
        },
    };
    let server = set_of(&c.rom_ids);
    let base = baseline.of(&c.id);
    let moves = favsync::reconcile(&here, &server, &base, on_card);
    let ghost looked = plan.surveyed@;
    let survey = Survey {
        name: text::owned(&c.name),
        here: here.len(),
        server: server.len(),
        reachable: common(&server, on_card),
    };
    let ghost seen = survey@;
    plan.surveyed.push(survey);
    proof {
        let f = |s: Survey| s@;
        assert(plan.surveyed@.map_values(f) =~= looked.map_values(f).push(seen));
    }
    let agreed = favsync::settled(&here, &server, &moves, on_card);
    if moves.len() == 0 {
        plan.agreeing = plan.agreeing + 1;
        let ghost was = plan.already@;
        let id = text::owned(&c.id);
        let ghost one = (id@, agreed@);
        plan.already.push((id, agreed));
        assert(agreements(plan.already@) =~= agreements(was).push(one));
        return ;
    }
    let item = Item { id: text::owned(&c.id), name: text::owned(&c.name), held, moves, agreed };
    proof {
        lemma_order_of_push(before.items, item@);
    }
    put_item(&mut plan.items, item);
}

/// Works out what would happen, given the server's collections. Changes nothing.
pub fn plan_from(
    collections: &Vec<Collection>,
    es: &EsPaths,
    known: &Vec<Known>,
    baseline: &Baseline,
    platform: &Platform,
    disk: &Disk,
) -> (r: Plan)
    ensures
        r@ == plan_for(sides(*disk, *es, known@, *baseline, *platform), collections@),
{
    let ghost s = sides(*disk, *es, known@, *baseline, *platform);
    let folders = favmap::folders(known);
    let on_card = favmap::ids(known);
    let index = favmap::by_file(known);
    let mut mine: Vec<Known> = Vec::new();
    let mut k: usize = 0;
    while k < known.len()
        invariant
            k <= known@.len(),
            mine@.len() == k,
            forall|j: int| 0 <= j < k ==> (#[trigger] mine@[j])@ == known@[j]@,
        decreases known@.len() - k,
    {
        mine.push(known[k].copy());
        k += 1;
    }
    assert(favmap::cards(mine@) =~= favmap::cards(known@));
    let mut plan = Plan::default();
    plan.known = mine;
    proof {
        assert(collections@.take(0) =~= Seq::empty());
        assert(plan@.items =~= Seq::empty());
        assert(plan@.surveyed =~= Seq::empty());
        assert(plan@.already =~= Seq::empty());
        assert(plan@.unread =~= Seq::empty());
    }
    let mut i: usize = 0;
    while i < collections.len()
        invariant
            s == sides(*disk, *es, known@, *baseline, *platform),
            text::texts(folders@) == favmap::folder_list(s.known),
            on_card@ == favmap::numbers(s.known),
            index@ == favmap::file_map(s.known),
            i <= collections@.len(),
            plan.agreeing <= i,
            ({
                let p = looked_at(s, collections@.take(i as int));
                plan@ == (Planned { items: in_order(p.items), ..p })
            }),
        decreases collections@.len() - i,
    {
        let ghost p = looked_at(s, collections@.take(i as int));
        proof {
            assert(collections@.take(i + 1).drop_last() =~= collections@.take(i as int));
        }
        look_at(
            &mut plan,
            &collections[i],
            es,
            &folders,
            &on_card,
            &index,
            baseline,
            platform,
            disk,
            Ghost(s),
            Ghost(p),
        );
        i += 1;
    }
    assert(collections@.take(i as int) =~= collections@);
    plan
}

proof fn lemma_put_in_order(items: Seq<Work>, w: Work)
    requires
        forall|i: int, j: int| 0 <= i < j < items.len() ==> !ahead(#[trigger] items[j], #[trigger] items[i]),
    ensures
        ({
            let r = put_in(items, w);
            &&& r.len() == items.len() + 1
            &&& forall|i: int, j: int| 0 <= i < j < r.len() ==> !ahead(#[trigger] r[j], #[trigger] r[i])
            &&& r.to_multiset() == items.to_multiset().insert(w)
            &&& forall|k: int| 0 <= k < r.len() ==> #[trigger] r[k] == w || items.contains(r[k])
        }),
    decreases items.len(),
{
    vstd::seq_lib::to_multiset_insert(items, items.len() as int, w);
    if items.len() > 0 && ahead(w, items.last()) {
        let front = items.drop_last();
        let last = items.last();
        assert forall|i: int, j: int| 0 <= i < j < front.len() implies !ahead(
            #[trigger] front[j],
            #[trigger] front[i],
        ) by {
            assert(front[i] == items[i] && front[j] == items[j]);
        }
        lemma_put_in_order(front, w);
        let some = put_in(front, w);
        let r = some.push(last);
        assert forall|i: int, j: int| 0 <= i < j < r.len() implies !ahead(#[trigger] r[j], #[trigger] r[i]) by {
            if j < some.len() {
                assert(r[i] == some[i] && r[j] == some[j]);
            } else {
                assert(r[i] == some[i]);
                if some[i] == w {
                    lemma_ahead_one_way(w, last);
                } else {
                    let k = choose|k: int| 0 <= k < front.len() && front[k] == some[i];
                    assert(items[k] == some[i]);
                    assert(!ahead(items[items.len() - 1], items[k]));
                }
            }
        }
        assert forall|k: int| 0 <= k < r.len() implies #[trigger] r[k] == w || items.contains(r[k]) by {
            if k < some.len() {
                assert(r[k] == some[k]);
                if some[k] != w {
                    let m = choose|m: int| 0 <= m < front.len() && front[m] == some[k];
                    assert(items[m] == some[k]);
                }
            } else {
                assert(items[items.len() - 1] == last);
            }
        }
        vstd::seq_lib::to_multiset_insert(front, front.len() as int, last);
        vstd::seq_lib::to_multiset_insert(some, some.len() as int, last);
        assert(front.insert(front.len() as int, last) =~= items);
        assert(some.insert(some.len() as int, last) =~= r);
        assert(r.to_multiset() =~= items.to_multiset().insert(w));
    } else {
        let r = items.push(w);
        assert(items.insert(items.len() as int, w) =~= r);
        assert forall|i: int, j: int| 0 <= i < j < r.len() implies !ahead(#[trigger] r[j], #[trigger] r[i]) by {
            if j == items.len() {
                if ahead(w, items[i]) {
                    if i < items.len() - 1 {
                        assert(!ahead(items[items.len() - 1], items[i]));
                        lemma_ahead_through(w, items[i], items.last());
                    }
                }
            }
        }
        assert forall|k: int| 0 <= k < r.len() implies #[trigger] r[k] == w || items.contains(r[k]) by {
            if k < items.len() {
                assert(items[k] == r[k]);
            }
        }
    }
}

proof fn lemma_ahead_one_way(a: Work, b: Work)
    requires
        ahead(a, b),
    ensures
        !ahead(b, a),
{
    if order::less(a.name, b.name) && order::less(b.name, a.name) {
        order::lemma_transitive(a.name, b.name, a.name);
        order::lemma_irreflexive(a.name);
    }
}

proof fn lemma_ahead_through(w: Work, a: Work, b: Work)
    requires
        ahead(w, a),
        !ahead(b, a),
    ensures
        ahead(w, b),
{
    order::lemma_total(a.name, b.name);
    if order::less(w.name, a.name) && order::less(a.name, b.name) {
        order::lemma_transitive(w.name, a.name, b.name);
    }
}

/// The biggest lists come first, those of one size by name, and every list is
/// there as often as it was.
pub proof fn law_the_biggest_lists_come_first(items: Seq<Work>)
    ensures
        forall|i: int, j: int|
            0 <= i < j < in_order(items).len() ==> !ahead(
                #[trigger] in_order(items)[j],
                #[trigger] in_order(items)[i],
            ),
        in_order(items).to_multiset() == items.to_multiset(),
    decreases items.len(),
{
    if items.len() == 0 {
        assert(in_order(items) =~= items);
    } else {
        law_the_biggest_lists_come_first(items.drop_last());
        lemma_put_in_order(in_order(items.drop_last()), items.last());
        let front = items.drop_last();
        vstd::seq_lib::to_multiset_insert(front, front.len() as int, items.last());
        assert(front.insert(front.len() as int, items.last()) =~= items);
    }
}

/// A list whose card side cannot be read takes no part: nothing is planned for it,
/// nothing is recorded as agreed, and it is named.
pub proof fn law_a_list_that_cannot_be_read_is_left_out(s: Sides, p: Planned, c: Collection)
    requires
        !c.is_smart,
        !c.is_virtual,
        held_here(s, kept_as(c.name@, favmap::folder_list(s.known), s.mapping), c.name@) is Err,
    ensures
        with_collection(s, p, c).items == p.items,
        with_collection(s, p, c).already == p.already,
        with_collection(s, p, c).unread.len() == p.unread.len() + 1,
        text::starts(with_collection(s, p, c).unread.last(), c.name@ + ": "@),
{
    let line = with_collection(s, p, c).unread.last();
    let head = c.name@ + ": "@;
    assert(line.take(head.len() as int) =~= head);
}

} // verus!
