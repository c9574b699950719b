//! What is on a device once a step was carried out, file by file, and when a step
//! is refused.

use vstd::prelude::*;
use crate::block_laws;
use crate::blocks;
use crate::disk;
use crate::disk::{Change, Disk, Seen};
use crate::failure::Failure;
use crate::lines;
use crate::patch;
use crate::patch::{Form, NamedIn, Patch, State, Step};
use crate::text;

verus! {

/// The text that was found at a path, if there is one.
pub open spec fn text_of(s: Seen) -> Option<Seq<char>> {
    match s {
        Seen::Bytes(b) => if vstd::utf8::valid_utf8(b) {
            Some(vstd::utf8::decode_utf8(b))
        } else {
            None
        },
        _ => None,
    }
}

/// What is at a path once a change was made.
pub open spec fn then_at(disk: Disk, change: Change, p: Seq<char>) -> Seen {
    disk::after(disk.all(), change@)(p)
}

/// Whether a change leaves every path but this one as it was.
pub open spec fn only_at(disk: Disk, change: Change, path: Seq<char>) -> bool {
    forall|p: Seq<char>| p != path ==> #[trigger] then_at(disk, change, p) == disk.at(p)
}

/// Taking a block out of a file is refused just where the file cannot be read,
/// where a block in it has no end, or where the file stands in for another that
/// cannot be read.
///
/// Where it is not refused and there is a file, the file then holds what it held
/// with the block cleared; but where it stands in for another, and what is left is
/// that other up to how it ends, it is gone. No other file is touched.
pub proof fn law_a_block_is_taken_out(
    file: String,
    id: String,
    form: Form,
    disk: &Disk,
    r: Result<Change, Failure>,
)
    requires
        call_ensures(Step::apply, (&Step::Block { file, id, body: None, form }, disk), r),
    ensures
        r is Ok <==> {
            ||| disk.at(file@) is Missing
            ||| {
                &&& text_of(disk.at(file@)) is Some
                &&& blocks::cleared(text_of(disk.at(file@)).unwrap(), id@) is Some
                &&& form matches Form::Seeded(seed) ==> disk.at(seed@) is Missing || text_of(disk.at(seed@)) is Some
            }
        },
        r matches Ok(change) ==> {
            &&& only_at(*disk, change, file@)
            &&& disk.at(file@) is Missing ==> then_at(*disk, change, file@) is Missing
            &&& text_of(disk.at(file@)) matches Some(t) ==> {
                let rest = blocks::cleared(t, id@).unwrap();
                if form matches Form::Seeded(seed) && text_of(disk.at(seed@)) is Some && text::trim_end(rest)
                    == text::trim_end(text_of(disk.at(seed@)).unwrap()) {
                    then_at(*disk, change, file@) is Missing
                } else {
                    text_of(then_at(*disk, change, file@)) == Some(rest)
                }
            }
        },
{
    if let Some(t) = text_of(disk.at(file@)) {
        if let Some(rest) = blocks::cleared(t, id@) {
            vstd::utf8::encode_utf8_valid_utf8(rest);
            vstd::utf8::encode_utf8_decode_utf8(rest);
        }
    }
}

/// Putting a block into a file is refused just where the file cannot be read,
/// where a block in it has no end, or, where the file stands in for another, just
/// where that other is not there or cannot be read or a block in it has no end.
///
/// Where it is not refused the file then holds what it held, or what the other
/// holds, with the block set. No other file is touched.
pub proof fn law_a_block_is_put_in(
    file: String,
    id: String,
    body: String,
    form: Form,
    disk: &Disk,
    r: Result<Change, Failure>,
)
    requires
        call_ensures(Step::apply, (&Step::Block { file, id, body: Some(body), form }, disk), r),
    ensures
        ({
            let base = match form {
                Form::Seeded(seed) => text_of(disk.at(seed@)),
                _ => if disk.at(file@) is Missing {
                    Some(Seq::empty())
                } else {
                    text_of(disk.at(file@))
                },
            };
            &&& r is Ok <==> {
                &&& disk.at(file@) is Missing || text_of(disk.at(file@)) is Some
                &&& base is Some
                &&& blocks::block_set(base.unwrap(), id@, body@) is Some
            }
            &&& r matches Ok(change) ==> {
                &&& only_at(*disk, change, file@)
                &&& text_of(then_at(*disk, change, file@)) == blocks::block_set(base.unwrap(), id@, body@)
            }
        }),
{
    let base = match form {
        Form::Seeded(seed) => text_of(disk.at(seed@)),
        _ => if disk.at(file@) is Missing {
            Some(Seq::empty())
        } else {
            text_of(disk.at(file@))
        },
    };
    if let Some(t) = base {
        if let Some(next) = blocks::block_set(t, id@, body@) {
            vstd::utf8::encode_utf8_valid_utf8(next);
            vstd::utf8::encode_utf8_decode_utf8(next);
        }
    }
}

/// Once a block was taken out without an error the file has no block of that
/// name, and the step says of itself that it is done.
pub proof fn law_a_block_taken_out_is_out(
    file: String,
    id: String,
    form: Form,
    disk: &Disk,
    then: &Disk,
    r: Result<Change, Failure>,
    done: bool,
)
    requires
        call_ensures(Step::apply, (&Step::Block { file, id, body: None, form }, disk), r),
        r matches Ok(change) && forall|p: Seq<char>| then.at(p) == #[trigger] then_at(*disk, change, p),
        call_ensures(Step::satisfied, (&Step::Block { file, id, body: None, form }, then), done),
        block_laws::good_id(id@),
        text_of(disk.at(file@)) matches Some(t) ==> block_laws::good_text(t, id@),
    ensures
        done,
        then.at(file@) is Missing || {
            &&& text_of(then.at(file@)) is Some
            &&& blocks::block_body(text_of(then.at(file@)).unwrap(), id@) is None
        },
{
    law_a_block_is_taken_out(file, id, form, disk, r);
    block_laws::law_nothing_has_no_block(id@);
    let change = r->Ok_0;
    assert(then.at(file@) == then_at(*disk, change, file@));
    if let Some(t) = text_of(disk.at(file@)) {
        block_laws::law_cleared_has_no_block(t, id@);
    }
}

/// A file that stands in for another, and was not there, is not there again once a
/// block was put into it and taken out; nor is anything else changed.
pub proof fn law_a_stand_in_comes_and_goes(
    file: String,
    id: String,
    body: String,
    seed: String,
    disk: &Disk,
    between: &Disk,
    put: Result<Change, Failure>,
    taken: Result<Change, Failure>,
)
    requires
        file@ != seed@,
        disk.at(file@) is Missing,
        call_ensures(
            Step::apply,
            (&Step::Block { file, id, body: Some(body), form: Form::Seeded(seed) }, disk),
            put,
        ),
        put matches Ok(change) && forall|p: Seq<char>| between.at(p) == #[trigger] then_at(*disk, change, p),
        call_ensures(
            Step::apply,
            (&Step::Block { file, id, body: None, form: Form::Seeded(seed) }, between),
            taken,
        ),
        block_laws::good_id(id@),
        block_laws::good_body(body@, id@),
        text_of(disk.at(seed@)) matches Some(stock) ==> {
            &&& block_laws::good_text(stock, id@)
            &&& text::trim_end(blocks::cleared(stock, id@).unwrap()) == text::trim_end(stock)
        },
    ensures
        taken matches Ok(change) && forall|p: Seq<char>| #[trigger]
            then_at(*between, change, p) == disk.at(p),
{
    law_a_block_is_put_in(file, id, body, Form::Seeded(seed), disk, put);
    law_a_block_is_taken_out(file, id, Form::Seeded(seed), between, taken);
    let stock = text_of(disk.at(seed@)).unwrap();
    let c = blocks::cleared(stock, id@).unwrap();
    block_laws::law_what_clearing_leaves_ends_plain(stock, id@);
    block_laws::law_clear_undoes_set(stock, id@, body@);
    let closed = text::trim_end(c).push('\n');
    assert(closed.drop_last() =~= text::trim_end(c));
    text::lemma_trim_of_trim_end(c);
    assert(text::trim_end(closed) == text::trim_end(c));
    let on = put->Ok_0;
    assert(between.at(file@) == then_at(*disk, on, file@));
    assert(between.at(seed@) == then_at(*disk, on, seed@));
    if taken is Ok {
        let off = taken->Ok_0;
        assert forall|p: Seq<char>| #[trigger] then_at(*between, off, p) == disk.at(p) by {
            assert(between.at(p) == then_at(*disk, on, p));
            if p == file@ {
                assert(then_at(*between, off, p) is Missing);
            }
        }
    }
}

/// A file of ours is put in place whatever was there. What was there is kept aside
/// the first time, and what was once kept stays. No other file is touched.
pub proof fn law_a_file_is_put_in_place(
    step: Step,
    path: String,
    ours: &'static [u8],
    backup: String,
    disk: &Disk,
    r: Result<Change, Failure>,
)
    requires
        path@ != backup@,
        step == (Step::Place { path, bytes: Some(ours), backup }) || step == (Step::Cover {
            path,
            ours,
            on: true,
            backup,
        }),
        call_ensures(Step::apply, (&step, disk), r),
    ensures
        r matches Ok(change) && {
            &&& then_at(*disk, change, path@) == Seen::Bytes(ours@)
            &&& then_at(*disk, change, backup@) == (if disk.at(backup@) is Missing || (disk.at(
                backup@,
            ) matches Seen::Unreadable { there, .. } && !there) {
                if disk.at(path@) is Missing || (disk.at(path@) matches Seen::Unreadable { there, .. }
                    && !there) {
                    disk.at(backup@)
                } else {
                    disk.at(path@)
                }
            } else {
                disk.at(backup@)
            })
            &&& forall|p: Seq<char>|
                p != path@ && p != backup@ ==> #[trigger] then_at(*disk, change, p) == disk.at(p)
        },
{
}

/// Whether something is at a path, whether or not it can be read.
pub open spec fn something(s: Seen) -> bool {
    match s {
        Seen::Missing => false,
        Seen::Bytes(_) => true,
        Seen::Unreadable { there, .. } => there,
    }
}

/// A file of ours that should not be there goes, and what was kept aside comes
/// back in its place. No other file is touched.
pub proof fn law_a_file_of_ours_goes(
    path: String,
    backup: String,
    disk: &Disk,
    r: Result<Change, Failure>,
)
    requires
        path@ != backup@,
        call_ensures(Step::apply, (&Step::Place { path, bytes: None, backup }, disk), r),
    ensures
        r matches Ok(change) && {
            &&& something(disk.at(backup@)) ==> then_at(*disk, change, path@) == disk.at(backup@) && then_at(
                *disk,
                change,
                backup@,
            ) is Missing
            &&& !something(disk.at(backup@)) ==> !something(then_at(*disk, change, path@)) && then_at(
                *disk,
                change,
                backup@,
            ) == disk.at(backup@)
            &&& forall|p: Seq<char>|
                p != path@ && p != backup@ ==> #[trigger] then_at(*disk, change, p) == disk.at(p)
        },
{
}

/// Off is refused just where the covered file cannot be read. A file that is not
/// ours stays. One that is ours, or gone, gives way to what was kept aside; and
/// where nothing was kept ours goes. No other file is touched.
pub proof fn law_a_cover_comes_off(
    path: String,
    ours: &'static [u8],
    backup: String,
    disk: &Disk,
    r: Result<Change, Failure>,
)
    requires
        path@ != backup@,
        call_ensures(Step::apply, (&Step::Cover { path, ours, on: false, backup }, disk), r),
    ensures
        r is Err <==> disk.at(path@) is Unreadable,
        r matches Ok(change) ==> {
            let gives_way = disk.at(path@) is Missing || disk.at(path@) == Seen::Bytes(ours@);
            &&& !gives_way ==> then_at(*disk, change, path@) == disk.at(path@)
            &&& gives_way && something(disk.at(backup@)) ==> then_at(*disk, change, path@) == disk.at(backup@)
            &&& gives_way && !something(disk.at(backup@)) ==> then_at(*disk, change, path@) is Missing
            &&& then_at(*disk, change, backup@) == (if gives_way && something(disk.at(backup@)) {
                Seen::Missing
            } else {
                disk.at(backup@)
            })
            &&& forall|p: Seq<char>|
                p != path@ && p != backup@ ==> #[trigger] then_at(*disk, change, p) == disk.at(p)
        },
{
}

/// Whether a text has a line that sets a key with some ending to a value with some
/// beginning.
pub open spec fn still_points(t: Seq<char>, ending: Seq<char>, beginning: Seq<char>) -> bool {
    let ls = lines::lines(t);
    exists|i: int, k: Seq<char>|
        0 <= i < ls.len() && blocks::key(#[trigger] ls[i]) == Some(k) && #[trigger] text::ends(k, ending)
            && text::starts(blocks::value(ls[i]), beginning)
}

/// A file that more than one patch can need is placed where it is wanted. Where it
/// is not, it goes, unless some live line still points at one of ours; and where
/// the file with those lines cannot be read it is refused. No other file is touched.
pub proof fn law_a_shared_file_stays_while_it_is_named(
    path: String,
    bytes: &'static [u8],
    want: bool,
    named: NamedIn,
    disk: &Disk,
    r: Result<Change, Failure>,
)
    requires
        call_ensures(Step::apply, (&Step::Shared { path, bytes, want, named }, disk), r),
    ensures
        r is Err <==> !want && something(disk.at(path@)) && !(disk.at(named.conf@) is Missing) && text_of(
            disk.at(named.conf@),
        ) is None,
        r matches Ok(change) ==> {
            &&& only_at(*disk, change, path@)
            &&& want ==> then_at(*disk, change, path@) == Seen::Bytes(bytes@)
            &&& !want && !something(disk.at(path@)) ==> then_at(*disk, change, path@) == disk.at(path@)
            &&& !want && something(disk.at(path@)) ==> if text_of(disk.at(named.conf@)) is Some
                && still_points(
                text_of(disk.at(named.conf@)).unwrap(),
                named.key_suffix@,
                named.value_prefix@,
            ) {
                then_at(*disk, change, path@) == disk.at(path@)
            } else {
                then_at(*disk, change, path@) is Missing
            }
        },
{
    if let Some(t) = text_of(disk.at(named.conf@)) {
        let ls = lines::lines(t);
        assert(still_points(t, named.key_suffix@, named.value_prefix@) == patch::any_names(
            ls,
            named.key_suffix@,
            named.value_prefix@,
        )) by {
            if patch::any_names(ls, named.key_suffix@, named.value_prefix@) {
                let i = choose|i: int|
                    0 <= i < ls.len() && patch::names(#[trigger] ls[i], named.key_suffix@, named.value_prefix@);
                let k = blocks::key(ls[i]).unwrap();
                assert(text::ends(k, named.key_suffix@));
            }
            if still_points(t, named.key_suffix@, named.value_prefix@) {
                let (i, k) = choose|i: int, k: Seq<char>|
                    0 <= i < ls.len() && blocks::key(#[trigger] ls[i]) == Some(k) && #[trigger] text::ends(
                        k,
                        named.key_suffix@,
                    ) && text::starts(blocks::value(ls[i]), named.value_prefix@);
                assert(patch::names(ls[i], named.key_suffix@, named.value_prefix@));
            }
        }
    }
}

/// A file of ours is in place where just its bytes are there, and away where
/// nothing is. One laid over another is off wherever what is there can be read and
/// is not ours. One that others may need is off where it is away, or is still
/// pointed at.
pub proof fn law_a_step_knows_when_it_is_done(step: Step, disk: &Disk, r: bool)
    requires
        call_ensures(Step::satisfied, (&step, disk), r),
    ensures
        match step {
            Step::Place { path, bytes: Some(want), .. } => r <==> disk.at(path@) == Seen::Bytes(want@),
            Step::Place { path, bytes: None, .. } => r <==> !something(disk.at(path@)),
            Step::Cover { path, ours, on: true, .. } => r <==> disk.at(path@) == Seen::Bytes(ours@),
            Step::Cover { path, ours, on: false, .. } => r <==> disk.at(path@) is Missing || (disk.at(
                path@,
            ) is Bytes && disk.at(path@) != Seen::Bytes(ours@)),
            Step::Shared { path, bytes, want: true, .. } => r <==> disk.at(path@) == Seen::Bytes(bytes@),
            Step::Shared { path, want: false, named, .. } => r <==> !something(disk.at(path@)) || (
            text_of(disk.at(named.conf@)) is Some && patch::any_names(
                lines::lines(text_of(disk.at(named.conf@)).unwrap()),
                named.key_suffix@,
                named.value_prefix@,
            )),
            Step::Block { file, id, body, form } => r ==> {
                let t = if disk.at(file@) is Missing {
                    Some(Seq::empty())
                } else {
                    text_of(disk.at(file@))
                };
                &&& t is Some
                &&& blocks::cleared(t.unwrap(), id@) is Some
                &&& blocks::block_body(t.unwrap(), id@) is Some <==> body is Some
                &&& body is Some ==> text::trim(blocks::block_body(t.unwrap(), id@).unwrap()) == text::trim(
                    body.unwrap()@,
                )
                &&& body is Some && form is Settings ==> blocks::holds(
                    lines::lines(t.unwrap()),
                    lines::lines(body.unwrap()@),
                )
                &&& body is Some ==> (form matches Form::Seeded(seed) ==> text_of(disk.at(seed@)) is Some
                    && text::trim_end(blocks::cleared(t.unwrap(), id@).unwrap()) == text::trim_end(
                    text_of(disk.at(seed@)).unwrap(),
                ))
            },
        },
{
}

/// A patch is at the first of its options all of whose steps say they are done,
/// and at none where there is no such option.
pub proof fn law_a_patch_is_at_the_first_option_that_is_done(
    patch: &Patch,
    disk: &Disk,
    done: spec_fn(Step) -> bool,
    r: State,
)
    requires
        call_ensures(Patch::state, (patch, disk), r),
        forall|s: Step| call_ensures(Step::satisfied, (&s, disk), #[trigger] done(s)),
    ensures
        ({
            let all = |n: int|
                forall|i: int|
                    0 <= i < patch.choices@[n].steps@.len() ==> done(#[trigger] patch.choices@[n].steps@[i]);
            match r {
                State::At(n) => n < patch.choices@.len() && all(n as int) && forall|m: int|
                    0 <= m < n ==> !#[trigger] all(m),
                State::Changed => forall|m: int| 0 <= m < patch.choices@.len() ==> !#[trigger] all(m),
            }
        }),
{
    let all = |n: int|
        forall|i: int|
            0 <= i < patch.choices@[n].steps@.len() ==> done(#[trigger] patch.choices@[n].steps@[i]);
    assert forall|s: Step| #[trigger] done(s) == patch::satisfied_in(s, disk.all()) by {
        assert(call_ensures(Step::satisfied, (&s, disk), done(s)));
    }
    assert forall|m: int| 0 <= m < patch.choices@.len() implies #[trigger] all(m) == patch::choice_satisfied(
        patch.choices@[m],
        disk.all(),
    ) by {
        assert forall|i: int| 0 <= i < patch.choices@[m].steps@.len() implies done(
            #[trigger] patch.choices@[m].steps@[i],
        ) == patch::satisfied_in(patch.choices@[m].steps@[i], disk.all()) by {}
        if patch::choice_satisfied(patch.choices@[m], disk.all()) {
            assert forall|i: int| 0 <= i < patch.choices@[m].steps@.len() implies done(
                #[trigger] patch.choices@[m].steps@[i],
            ) by {
                assert(patch::satisfied_in(patch.choices@[m].steps@[i], disk.all()));
            }
        }
    }
    assert(patch::state_in(patch.choices@, disk.all(), r));
}

} // verus!
