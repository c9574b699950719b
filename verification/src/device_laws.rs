//! What is seen of a device: its files, the copies kept of them, and what is running
//! on it.

use vstd::prelude::*;
use crate::disk;
use crate::disk::{Disk, Found, Seen};
use crate::es;
use crate::es::{Device, Process};
use crate::esctl;
use crate::esctl::Knulli;
use crate::eslist;
use crate::knulli;
use crate::lines;
use crate::number;
use crate::order;
use crate::patch;
use crate::paths;
use crate::picks;
use crate::procs;
use crate::text;
use crate::worker;

verus! {

// ---------------------------------------------------------------------------
// Files
// ---------------------------------------------------------------------------

/// Whether a finding is the first about a path.
pub open spec fn first_about(files: Seq<(String, Found)>, path: Seq<char>, i: int) -> bool {
    &&& 0 <= i < files.len()
    &&& files[i].0@ == path
    &&& forall|j: int| 0 <= j < i ==> (#[trigger] files[j]).0@ != path
}

proof fn lemma_seen_at(files: Seq<(String, Found)>, path: Seq<char>)
    ensures
        forall|i: int| #[trigger] first_about(files, path, i) ==> disk::seen_at(files, path) == files[i].1@,
        (forall|j: int| 0 <= j < files.len() ==> (#[trigger] files[j]).0@ != path) ==> disk::seen_at(files, path)
            is Missing,
    decreases files.len(),
{
    if files.len() > 0 {
        let rest = files.skip(1);
        lemma_seen_at(rest, path);
        assert forall|j: int| 0 <= j < rest.len() implies #[trigger] rest[j] == files[j + 1] by {}
        assert forall|i: int| #[trigger] first_about(files, path, i) implies disk::seen_at(files, path)
            == files[i].1@ by {
            if i > 0 {
                assert(files[0].0@ != path);
                assert forall|j: int| 0 <= j < i - 1 implies (#[trigger] rest[j]).0@ != path by {
                    assert(files[j + 1].0@ != path);
                }
                assert(first_about(rest, path, i - 1));
            }
        }
        if forall|j: int| 0 <= j < files.len() ==> (#[trigger] files[j]).0@ != path {
            assert(files[0].0@ != path);
            assert forall|j: int| 0 <= j < rest.len() implies (#[trigger] rest[j]).0@ != path by {
                assert(files[j + 1].0@ != path);
            }
        }
    }
}

/// What is at a path is what the first finding about it says, and nothing is there
/// where there is none.
pub proof fn law_the_first_finding_about_a_path_counts(disk: Disk, path: Seq<char>)
    ensures
        forall|i: int| #[trigger] first_about(disk.files@, path, i) ==> disk.at(path) == disk.files@[i].1@,
        (forall|j: int| 0 <= j < disk.files@.len() ==> (#[trigger] disk.files@[j]).0@ != path) ==> disk.at(path)
            == Seen::Missing,
{
    lemma_seen_at(disk.files@, path);
}

/// Whether a path is the first of some that is there.
pub open spec fn first_that_is_there(candidates: Seq<String>, files: Seq<String>, i: int) -> bool {
    &&& 0 <= i < candidates.len()
    &&& text::texts(files).contains(candidates[i]@)
    &&& forall|j: int| 0 <= j < i ==> !text::texts(files).contains((#[trigger] candidates[j])@)
}

proof fn lemma_first_there(candidates: Seq<String>, files: Seq<String>)
    ensures
        forall|i: int| #[trigger]
            first_that_is_there(candidates, files, i) ==> worker::first_there(
                text::texts(candidates),
                text::texts(files),
            ) == Some(candidates[i]@),
        (forall|j: int| 0 <= j < candidates.len() ==> !text::texts(files).contains((#[trigger] candidates[j])@))
            ==> worker::first_there(text::texts(candidates), text::texts(files)) is None,
    decreases candidates.len(),
{
    if candidates.len() > 0 {
        let rest = candidates.skip(1);
        let there = text::texts(files);
        lemma_first_there(rest, files);
        assert(text::texts(candidates).skip(1) =~= text::texts(rest));
        assert(text::texts(candidates)[0] == candidates[0]@);
        assert forall|j: int| 0 <= j < rest.len() implies #[trigger] rest[j] == candidates[j + 1] by {}
        assert forall|i: int| #[trigger] first_that_is_there(candidates, files, i) implies worker::first_there(
            text::texts(candidates),
            there,
        ) == Some(candidates[i]@) by {
            if i > 0 {
                assert(!there.contains(candidates[0]@));
                assert forall|j: int| 0 <= j < i - 1 implies !there.contains((#[trigger] rest[j])@) by {
                    assert(!there.contains(candidates[j + 1]@));
                }
                assert(first_that_is_there(rest, files, i - 1));
            }
        }
        if forall|j: int| 0 <= j < candidates.len() ==> !there.contains((#[trigger] candidates[j])@) {
            assert(!there.contains(candidates[0]@));
            assert forall|j: int| 0 <= j < rest.len() implies !there.contains((#[trigger] rest[j])@) by {
                assert(!there.contains(candidates[j + 1]@));
            }
        }
    }
}

/// The library index is the first of the candidates that is there.
pub proof fn law_the_index_is_the_first_that_is_there(
    candidates: &Vec<String>,
    files: &Vec<String>,
    r: Option<String>,
)
    requires
        call_ensures(worker::find_cache, (candidates, files), r),
    ensures
        forall|i: int| #[trigger]
            first_that_is_there(candidates@, files@, i) ==> (r matches Some(p) && p@ == candidates@[i]@),
        (forall|j: int| 0 <= j < candidates@.len() ==> !text::texts(files@).contains((#[trigger] candidates@[j])@))
            ==> r is None,
{
    lemma_first_there(candidates@, files@);
}

// ---------------------------------------------------------------------------
// Copies
// ---------------------------------------------------------------------------

/// Whether an entry is a copy of a file, made at a time: a number, a dash and the
/// file's name.
pub open spec fn is_copy(entry: Seq<char>, name: Seq<char>, at: nat) -> bool {
    exists|digits: Seq<char>|
        entry == #[trigger] (digits + seq!['-'] + name) && !digits.contains('-') && number::unsigned(digits)
            == Some(at) && at <= u128::MAX
}

proof fn lemma_copy_stamp(entry: Seq<char>, name: Seq<char>, at: nat)
    ensures
        eslist::copy_stamp(entry, name) == Some(at) <==> is_copy(entry, name, at),
{
    text::lemma_cut_first(entry, '-');
    if eslist::copy_stamp(entry, name) == Some(at) {
        let digits = text::cut(entry, '-').unwrap().0;
        assert(entry == digits + seq!['-'] + name);
    }
    if is_copy(entry, name, at) {
        let digits = choose|digits: Seq<char>|
            entry == #[trigger] (digits + seq!['-'] + name) && !digits.contains('-') && number::unsigned(digits)
                == Some(at) && at <= u128::MAX;
        text::lemma_cut_joined(digits, '-', name);
    }
}

/// Whether an entry is a copy that is newer than another copy; of two of one time
/// the one whose entry comes later.
pub open spec fn is_newer(name: Seq<char>, one: Seq<char>) -> spec_fn(Seq<char>) -> bool {
    |e: Seq<char>|
        exists|x: nat, y: nat| #[trigger]
            is_copy(e, name, x) && #[trigger] is_copy(one, name, y) && (x > y || (x == y && order::less(one, e)))
}

proof fn lemma_newer(e: Seq<char>, one: Seq<char>, name: Seq<char>)
    ensures
        eslist::newer(e, one, name) == is_newer(name, one)(e),
{
    if let (Some(x), Some(y)) = (eslist::copy_stamp(e, name), eslist::copy_stamp(one, name)) {
        lemma_copy_stamp(e, name, x);
        lemma_copy_stamp(one, name, y);
    }
    if is_newer(name, one)(e) {
        let (x, y) = choose|x: nat, y: nat| #[trigger]
            is_copy(e, name, x) && #[trigger] is_copy(one, name, y) && (x > y || (x == y && order::less(one, e)));
        lemma_copy_stamp(e, name, x);
        lemma_copy_stamp(one, name, y);
    }
}

proof fn lemma_newer_than(entries: Seq<Seq<char>>, one: Seq<char>, name: Seq<char>)
    ensures
        eslist::newer_than(entries, one, name) == entries.filter(is_newer(name, one)).len(),
    decreases entries.len(),
{
    reveal(Seq::filter);
    if entries.len() > 0 {
        lemma_newer_than(entries.drop_last(), one, name);
        lemma_newer(entries.last(), one, name);
    }
}

/// A copy goes just where ten newer ones of the same file are there; nothing that is
/// no copy of the file ever goes.
pub proof fn law_the_ten_newest_copies_stay(entries: &Vec<String>, name: &str, r: Vec<String>)
    requires
        call_ensures(eslist::stale_copies, (entries, name), r),
    ensures
        forall|e: Seq<char>| #[trigger]
            text::texts(r@).contains(e) <==> text::texts(entries@).contains(e) && (exists|at: nat| #[trigger]
                is_copy(e, name@, at)) && text::texts(entries@).filter(is_newer(name@, e)).len() >= 10,
{
    let all = text::texts(entries@);
    let f = |e: Seq<char>| eslist::is_stale(text::texts(entries@), e, name@);
    assert(text::texts(r@) == all.filter(f));
    let at = picks::lemma_filter_places(all, f);
    assert forall|e: Seq<char>| #[trigger] text::texts(r@).contains(e) <==> all.contains(e) && (exists|at: nat|
        #[trigger]
        is_copy(e, name@, at)) && all.filter(is_newer(name@, e)).len() >= 10 by {
        lemma_newer_than(all, e, name@);
        if let Some(x) = eslist::copy_stamp(e, name@) {
            lemma_copy_stamp(e, name@, x);
        }
        if exists|x: nat| #[trigger] is_copy(e, name@, x) {
            let x = choose|x: nat| #[trigger] is_copy(e, name@, x);
            lemma_copy_stamp(e, name@, x);
        }
        if all.filter(f).contains(e) {
            let k = all.filter(f).index_of(e);
            assert(all[at[k]] == e);
            assert(f(all[at[k]]));
        }
        if all.contains(e) && f(e) {
            let i = all.index_of(e);
            assert(f(all[i]));
            let k = at.index_of(i);
            assert(all.filter(f)[k] == all[at[k]]);
        }
    }
}

/// The name ES knows a collection by is the collection's own, with a dash for each
/// slash and each comma.
pub proof fn law_an_es_name_has_no_slash_and_no_comma(collection: &str, r: String)
    requires
        call_ensures(eslist::es_name, (collection,), r),
    ensures
        r@.len() == collection@.len(),
        forall|i: int|
            0 <= i < r@.len() ==> #[trigger] r@[i] == (if collection@[i] == '/' || collection@[i] == ',' {
                '-'
            } else {
                collection@[i]
            }),
{
}

// ---------------------------------------------------------------------------
// Command lines
// ---------------------------------------------------------------------------

proof fn lemma_first_nul_of(raw: Seq<u8>, i: int)
    requires
        0 <= i <= raw.len(),
    ensures
        ({
            let n = procs::first_nul(raw, i);
            &&& i <= n <= raw.len()
            &&& n < raw.len() ==> raw[n] == 0
            &&& forall|k: int| i <= k < n ==> raw[k] != 0
        }),
    decreases raw.len() - i,
{
    if i < raw.len() && raw[i] != 0 {
        lemma_first_nul_of(raw, i + 1);
    }
}

/// A piece of a command line without a NUL is one argument, and nothing is none.
pub proof fn law_a_piece_is_one_argument(piece: Seq<u8>)
    requires
        !piece.contains(0),
    ensures
        procs::args(piece) == (if piece.len() == 0 {
            Seq::empty()
        } else {
            seq![procs::lossy_text(piece)]
        }),
{
    lemma_first_nul_of(piece, 0);
    let n = procs::first_nul(piece, 0);
    if n < piece.len() {
        assert(piece.contains(piece[n]));
    }
}

/// The arguments on both sides of a NUL are those of the one side and then those of
/// the other.
pub proof fn law_a_nul_parts_arguments(a: Seq<u8>, b: Seq<u8>)
    ensures
        procs::args(a + seq![0u8] + b) == procs::args(a) + procs::args(b),
    decreases a.len(),
{
    let raw = a + seq![0u8] + b;
    lemma_first_nul_of(raw, 0);
    lemma_first_nul_of(a, 0);
    let n = procs::first_nul(raw, 0);
    let m = procs::first_nul(a, 0);
    assert(raw[a.len() as int] == 0);
    assert(n == m) by {
        if m < a.len() {
            assert(raw[m] == a[m]);
        }
        if n < m {
            assert(raw[n] == a[n]);
        }
    }
    if a.len() == 0 {
        assert(raw.skip(1) =~= b);
        assert(procs::args(a) + procs::args(b) =~= procs::args(b));
    } else if n == 0 {
        assert(raw.skip(1) =~= a.skip(1) + seq![0u8] + b);
        law_a_nul_parts_arguments(a.skip(1), b);
    } else if n < a.len() {
        assert(raw.skip(n + 1) =~= a.skip(n + 1) + seq![0u8] + b);
        assert(raw.take(n) =~= a.take(n));
        law_a_nul_parts_arguments(a.skip(n + 1), b);
        assert(seq![procs::lossy_text(a.take(n))] + (procs::args(a.skip(n + 1)) + procs::args(b)) =~= (seq![
            procs::lossy_text(a.take(n)),
        ] + procs::args(a.skip(n + 1))) + procs::args(b));
    } else {
        assert(raw.skip(n + 1) =~= b);
        assert(raw.take(n) =~= a);
    }
}

// ---------------------------------------------------------------------------
// Processes
// ---------------------------------------------------------------------------

/// Whether a directory stands for another process than this one: its name is a
/// number that a process can have, and the process was there to be read.
pub open spec fn stands_for_process(me: u32) -> spec_fn(es::ProcEntry) -> bool {
    |e: es::ProcEntry|
        e.comm is Some && number::unsigned(e.name@) is Some && number::unsigned(e.name@).unwrap() <= u32::MAX
            && number::unsigned(e.name@).unwrap() != me
}

proof fn lemma_processes(entries: Seq<es::ProcEntry>, me: u32)
    ensures
        es::processes_in(entries, me).len() == entries.filter(stands_for_process(me)).len(),
        forall|k: int|
            0 <= k < entries.filter(stands_for_process(me)).len() ==> es::process_in(
                #[trigger] entries.filter(stands_for_process(me))[k],
                me,
            ) == Some(es::processes_in(entries, me)[k]),
    decreases entries.len(),
{
    reveal(Seq::filter);
    if entries.len() > 0 {
        lemma_processes(entries.drop_last(), me);
    }
}

/// Every other process is seen, once and in its place, with its number, its name and
/// its arguments; and nothing else is.
pub proof fn law_every_other_process_is_seen(entries: &Vec<es::ProcEntry>, me: u32, r: Vec<Process>)
    requires
        call_ensures(es::processes, (entries, me), r),
    ensures
        ({
            let there = entries@.filter(stands_for_process(me));
            &&& r@.len() == there.len()
            &&& forall|k: int|
                0 <= k < r@.len() ==> {
                    let p = #[trigger] r@[k];
                    &&& p.pid == number::unsigned(there[k].name@).unwrap()
                    &&& p.pid != me
                    &&& p.name@ == text::trim_end(there[k].comm.unwrap()@)
                    &&& text::texts(p.args@) == (match there[k].cmdline {
                        Some(raw) => procs::args(raw@),
                        None => Seq::empty(),
                    })
                }
        }),
{
    lemma_processes(entries@, me);
    let there = entries@.filter(stands_for_process(me));
    let at = picks::lemma_filter_places(entries@, stands_for_process(me));
    assert(es::views(r@).len() == r@.len());
    assert forall|k: int| 0 <= k < r@.len() implies {
        let p = #[trigger] r@[k];
        &&& p.pid == number::unsigned(there[k].name@).unwrap()
        &&& p.pid != me
        &&& p.name@ == text::trim_end(there[k].comm.unwrap()@)
        &&& text::texts(p.args@) == (match there[k].cmdline {
            Some(raw) => procs::args(raw@),
            None => Seq::empty(),
        })
    } by {
        assert(es::views(r@)[k] == es::process_view(r@[k]));
        assert(stands_for_process(me)(entries@[at[k]]));
        assert(es::process_in(there[k], me) == Some(es::process_view(r@[k])));
    }
}

/// Whether a process is a game: it is called `retroarch`, or one of its arguments
/// has `emulatorlauncher` in it.
pub open spec fn plays(p: Process) -> bool {
    p.name@ == "retroarch"@ || exists|i: int|
        0 <= i < p.args@.len() && text::has((#[trigger] p.args@[i])@, "emulatorlauncher"@)
}

proof fn lemma_plays(p: Process)
    ensures
        plays(p) == es::is_game(p.name@, text::texts(p.args@)),
{
    let ts = text::texts(p.args@);
    let part = "emulatorlauncher"@;
    if procs::any_has(ts, part) {
        let i = choose|i: int| 0 <= i < ts.len() && text::has(#[trigger] ts[i], part);
        assert(text::has(p.args@[i]@, part));
    }
    if exists|i: int| 0 <= i < p.args@.len() && text::has((#[trigger] p.args@[i])@, part) {
        let i = choose|i: int| 0 <= i < p.args@.len() && text::has((#[trigger] p.args@[i])@, part);
        assert(text::has(ts[i], part));
    }
}

/// Whether a process is the first of some that is a game.
pub open spec fn first_playing(all: Seq<Process>, i: int) -> bool {
    &&& 0 <= i < all.len()
    &&& plays(all[i])
    &&& forall|j: int| 0 <= j < i ==> !plays(#[trigger] all[j])
}

proof fn lemma_first_game(all: Seq<Process>)
    ensures
        forall|i: int| #[trigger]
            first_playing(all, i) ==> es::first_game(es::views(all)) == Some(
                all[i].name@ + " (pid "@ + number::decimal(all[i].pid as nat) + ")"@,
            ),
        (forall|j: int| 0 <= j < all.len() ==> !plays(#[trigger] all[j])) ==> es::first_game(es::views(all)) is None,
    decreases all.len(),
{
    if all.len() > 0 {
        let rest = all.skip(1);
        lemma_first_game(rest);
        lemma_plays(all[0]);
        assert(es::views(all).skip(1) =~= es::views(rest));
        assert(es::views(all)[0] == es::process_view(all[0]));
        assert forall|j: int| 0 <= j < rest.len() implies #[trigger] rest[j] == all[j + 1] by {}
        assert forall|i: int| #[trigger] first_playing(all, i) implies es::first_game(es::views(all)) == Some(
            all[i].name@ + " (pid "@ + number::decimal(all[i].pid as nat) + ")"@,
        ) by {
            if i > 0 {
                assert(!plays(all[0]));
                assert forall|j: int| 0 <= j < i - 1 implies !plays(#[trigger] rest[j]) by {
                    assert(!plays(all[j + 1]));
                }
                assert(first_playing(rest, i - 1));
            }
        }
        if forall|j: int| 0 <= j < all.len() ==> !plays(#[trigger] all[j]) {
            assert(!plays(all[0]));
            assert forall|j: int| 0 <= j < rest.len() implies !plays(#[trigger] rest[j]) by {
                assert(!plays(all[j + 1]));
            }
        }
    }
}

/// A game is running just where some process is one, and the first such is named; ES
/// is running just where some process was started from its binary.
pub proof fn law_what_is_running_is_what_some_process_is(
    device: &Device,
    all: &Vec<Process>,
    game: Option<String>,
    running: bool,
)
    requires
        call_ensures(Device::game, (device, all), game),
        call_ensures(Device::es_running, (device, all), running),
    ensures
        forall|i: int| #[trigger]
            first_playing(all@, i) ==> (game matches Some(g) && g@ == all@[i].name@ + " (pid "@ + number::decimal(
                all@[i].pid as nat,
            ) + ")"@),
        (forall|j: int| 0 <= j < all@.len() ==> !plays(#[trigger] all@[j])) ==> game is None,
        running <==> exists|i: int|
            0 <= i < all@.len() && (#[trigger] all@[i]).args@.len() > 0 && paths::name(all@[i].args@[0]@) == Some(
                "emulationstation"@,
            ),
{
    lemma_first_game(all@);
    let vs = es::views(all@);
    if running {
        let i = choose|i: int| 0 <= i < vs.len() && es::is_es((#[trigger] vs[i]).2);
        assert(vs[i] == es::process_view(all@[i]));
        assert(text::texts(all@[i].args@)[0] == all@[i].args@[0]@);
    }
    if exists|i: int|
        0 <= i < all@.len() && (#[trigger] all@[i]).args@.len() > 0 && paths::name(all@[i].args@[0]@) == Some(
            "emulationstation"@,
        ) {
        let i = choose|i: int|
            0 <= i < all@.len() && (#[trigger] all@[i]).args@.len() > 0 && paths::name(all@[i].args@[0]@) == Some(
                "emulationstation"@,
            );
        assert(vs[i] == es::process_view(all@[i]));
        assert(text::texts(all@[i].args@)[0] == all@[i].args@[0]@);
        assert(es::is_es(vs[i].2));
    }
}

/// Whether a directory stands for a process that says what it was started with.
pub open spec fn says_its_command() -> spec_fn(esctl::ProcEntry) -> bool {
    |e: esctl::ProcEntry|
        {
            &&& forall|i: int| 0 <= i < e.name@.len() ==> '0' <= #[trigger] e.name@[i] <= '9'
            &&& e.cmdline is Some && procs::args(e.cmdline.unwrap()@).len() > 0
        }
}

proof fn lemma_commands(entries: Seq<esctl::ProcEntry>)
    ensures
        esctl::commands_in(entries).len() == entries.filter(says_its_command()).len(),
        forall|k: int|
            0 <= k < entries.filter(says_its_command()).len() ==> esctl::command_in(
                #[trigger] entries.filter(says_its_command())[k],
            ) == Some(esctl::commands_in(entries)[k]),
    decreases entries.len(),
{
    reveal(Seq::filter);
    if entries.len() > 0 {
        lemma_commands(entries.drop_last());
        let e = entries.last();
        assert(esctl::all_digits(e.name@) == (forall|i: int|
            0 <= i < e.name@.len() ==> '0' <= #[trigger] e.name@[i] <= '9')) by {
            assert forall|i: int| 0 <= i < e.name@.len() implies ('0' <= #[trigger] e.name@[i] <= '9') == (
            number::digit_value(e.name@[i]) is Some) by {}
            if esctl::all_digits(e.name@) {
                assert forall|i: int| 0 <= i < e.name@.len() implies '0' <= #[trigger] e.name@[i] <= '9' by {
                    assert(number::digit_value(e.name@[i]) is Some);
                }
            }
        }
    }
}

/// Every process that says what it was started with is seen with it, once and in its
/// place; and nothing else is.
pub proof fn law_every_command_is_seen(knulli: &Knulli, entries: &Vec<esctl::ProcEntry>, r: Vec<Vec<String>>)
    requires
        call_ensures(Knulli::commands, (knulli, entries), r),
    ensures
        ({
            let there = entries@.filter(says_its_command());
            &&& r@.len() == there.len()
            &&& forall|k: int|
                0 <= k < r@.len() ==> text::texts((#[trigger] r@[k])@) == procs::args(there[k].cmdline.unwrap()@)
        }),
{
    lemma_commands(entries@);
    let there = entries@.filter(says_its_command());
    assert(esctl::lists(r@).len() == r@.len());
    assert forall|k: int| 0 <= k < r@.len() implies text::texts((#[trigger] r@[k])@) == procs::args(
        there[k].cmdline.unwrap()@,
    ) by {
        assert(esctl::lists(r@)[k] == text::texts(r@[k]@));
        assert(esctl::command_in(there[k]) is Some);
    }
}

/// Whether a command was started from a program, wherever that is.
pub open spec fn started_from(args: Seq<String>, program: Seq<char>) -> bool {
    args.len() > 0 && (args[0]@ == program || text::ends(args[0]@, seq!['/'] + program))
}

proof fn lemma_started_from(args: Seq<String>, program: Seq<char>)
    requires
        !program.contains('/'),
    ensures
        started_from(args, program) <==> args.len() > 0 && esctl::program(text::texts(args)) == program,
{
    if args.len() > 0 {
        let t = args[0]@;
        let n = t.len() as int;
        assert(text::texts(args)[0] == t);
        text::lemma_rfind(t, '/', n);
        let ending = seq!['/'] + program;
        match text::rfind_before(t, '/', n) {
            Some(i) => {
                if t.skip(i + 1) == program {
                    assert(t.skip(n - ending.len()) =~= ending);
                }
                if text::ends(t, ending) {
                    let k = n - ending.len();
                    assert(t.skip(k)[0] == t[k] && ending[0] == '/');
                    assert forall|j: int| k < j < n implies t[j] != '/' by {
                        assert(t.skip(k)[j - k] == t[j]);
                        assert(ending[j - k] == program[j - k - 1]);
                    }
                    assert(i == k);
                    assert(t.skip(i + 1) =~= program) by {
                        assert forall|j: int| 0 <= j < program.len() implies t.skip(i + 1)[j] == program[j] by {
                            assert(t.skip(k)[j + 1] == ending[j + 1]);
                        }
                    }
                }
                if t == program {
                    assert(program.contains(program[i]));
                }
            },
            None => {
                if text::ends(t, ending) {
                    let k = n - ending.len();
                    assert(t.skip(k)[0] == t[k] && ending[0] == '/');
                }
            },
        }
    }
}

/// ES is running just where some command was started from its binary, and a game
/// just where one was from RetroArch or has `emulatorlauncher` in an argument.
pub proof fn law_a_command_says_what_is_running(
    knulli: &Knulli,
    commands: &Vec<Vec<String>>,
    running: bool,
    game: bool,
)
    requires
        call_ensures(Knulli::es_running, (knulli, commands), running),
        call_ensures(Knulli::game_running, (knulli, commands), game),
    ensures
        running <==> exists|i: int|
            0 <= i < commands@.len() && started_from((#[trigger] commands@[i])@, "emulationstation"@),
        game <==> exists|i: int|
            0 <= i < commands@.len() && (#[trigger] commands@[i])@.len() > 0 && (started_from(
                commands@[i]@,
                "retroarch"@,
            ) || procs::any_has(text::texts(commands@[i]@), "emulatorlauncher"@)),
{
    reveal_strlit("emulationstation");
    reveal_strlit("retroarch");
    let ls = esctl::lists(commands@);
    assert forall|i: int| 0 <= i < commands@.len() implies ls[i] == text::texts((#[trigger] commands@[i])@)
        && started_from(commands@[i]@, "emulationstation"@) == esctl::is_es(ls[i]) && (commands@[i]@.len() > 0 && (
    started_from(commands@[i]@, "retroarch"@) || procs::any_has(text::texts(commands@[i]@), "emulatorlauncher"@)))
        == esctl::is_game(ls[i]) by {
        lemma_started_from(commands@[i]@, "emulationstation"@);
        lemma_started_from(commands@[i]@, "retroarch"@);
        assert(text::texts(commands@[i]@).len() == commands@[i]@.len());
    }
    if running {
        let i = choose|i: int| 0 <= i < ls.len() && esctl::is_es(#[trigger] ls[i]);
        assert(started_from(commands@[i]@, "emulationstation"@));
    }
    if exists|i: int| 0 <= i < commands@.len() && started_from((#[trigger] commands@[i])@, "emulationstation"@) {
        let i = choose|i: int|
            0 <= i < commands@.len() && started_from((#[trigger] commands@[i])@, "emulationstation"@);
        assert(esctl::is_es(ls[i]));
    }
    if game {
        let i = choose|i: int| 0 <= i < ls.len() && esctl::is_game(#[trigger] ls[i]);
        assert(commands@[i]@.len() > 0);
    }
    if exists|i: int|
        0 <= i < commands@.len() && (#[trigger] commands@[i])@.len() > 0 && (started_from(
            commands@[i]@,
            "retroarch"@,
        ) || procs::any_has(text::texts(commands@[i]@), "emulatorlauncher"@)) {
        let i = choose|i: int|
            0 <= i < commands@.len() && (#[trigger] commands@[i])@.len() > 0 && (started_from(
                commands@[i]@,
                "retroarch"@,
            ) || procs::any_has(text::texts(commands@[i]@), "emulatorlauncher"@));
        assert(esctl::is_game(ls[i]));
    }
}

// ---------------------------------------------------------------------------
// Versions
// ---------------------------------------------------------------------------

/// The version that is installed is the first line of the file that names it, without
/// the space round it; there is none where the file is no text, or says nothing there.
pub proof fn law_the_version_is_the_first_line(disk: &Disk, paths: &patch::Paths, r: Option<String>)
    requires
        call_ensures(knulli::installed, (disk, paths), r),
    ensures
        ({
            let at = disk.at(paths::joined(paths.root@, "usr/share/knulli/knulli.version"@));
            let ls = lines::lines(vstd::utf8::decode_utf8(at->Bytes_0));
            if at is Bytes && vstd::utf8::valid_utf8(at->Bytes_0) && ls.len() > 0 && text::trim(ls[0]).len() > 0 {
                r matches Some(v) && v@ == text::trim(ls[0])
            } else {
                r is None
            }
        }),
{
}

/// A patch may be applied without insisting unless the image is another than the one
/// it was made for.
pub proof fn law_another_image_is_not_safe(
    disk: &Disk,
    paths: &patch::Paths,
    installed: Option<String>,
    verdict: knulli::Verdict,
    safe: bool,
)
    requires
        call_ensures(knulli::installed, (disk, paths), installed),
        call_ensures(knulli::check, (disk, paths), verdict),
        call_ensures(knulli::Verdict::safe_to_apply, (&verdict,), safe),
    ensures
        safe <==> installed is None || installed.unwrap()@ == knulli::BUILT_FOR@,
{
}

} // verus!
