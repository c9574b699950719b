//! What applying and reverting a step promise together.

use vstd::prelude::*;
use crate::block_laws;
use crate::blocks;
use crate::disk;
use crate::lines;
use crate::patch;
use crate::patch::{Form, Step};
use crate::text;

verus! {

/// What a step's change leaves of a disk; the disk itself where it is refused.
pub open spec fn applied(step: Step, d: spec_fn(Seq<char>) -> disk::Seen) -> spec_fn(
    Seq<char>,
) -> disk::Seen {
    match patch::change_for(step, d) {
        Ok(act) => disk::after(d, act),
        Err(_) => d,
    }
}

/// A file that is ours, put in place, is in place; and so is one that more
/// than one patch can need.
pub proof fn law_placed_is_satisfied(step: Step, d: spec_fn(Seq<char>) -> disk::Seen)
    requires
        match step {
            Step::Place { bytes, .. } => bytes is Some,
            Step::Cover { on, .. } => on,
            Step::Shared { want, .. } => want,
            Step::Block { .. } => false,
        },
    ensures
        patch::change_for(step, d) is Ok,
        patch::satisfied_in(step, applied(step, d)),
{
}

/// A file of ours that is taken away is away, where there is nothing to put
/// back in its place.
pub proof fn law_taken_away_is_satisfied(step: Step, d: spec_fn(Seq<char>) -> disk::Seen)
    requires
        match step {
            Step::Place { bytes, backup, .. } => bytes is None && !disk::is_there(d(backup@)),
            Step::Cover { on, backup, .. } => !on && !disk::is_there(d(backup@)),
            Step::Shared { want, .. } => !want,
            Step::Block { .. } => false,
        },
        patch::change_for(step, d) is Ok,
    ensures
        patch::satisfied_in(step, applied(step, d)),
{
}

/// Off never touches a file that is not ours.
pub proof fn law_off_leaves_what_is_not_ours(
    path: String,
    ours: &'static [u8],
    backup: String,
    d: spec_fn(Seq<char>) -> disk::Seen,
)
    requires
        d(path@) is Bytes,
        d(path@) != disk::Seen::Bytes(ours@),
    ensures
        applied(Step::Cover { path, ours, on: false, backup }, d) == d,
{
}

/// Placing a file keeps the original and gives it back: on, then off, and every
/// file is what it was; and where there was an original, on twice over, then
/// off, gives it back too.
pub proof fn law_place_gives_back(
    path: String,
    ours: &'static [u8],
    backup: String,
    d: spec_fn(Seq<char>) -> disk::Seen,
)
    requires
        path@ != backup@,
        d(path@) is Bytes || d(path@) is Missing,
        d(backup@) is Missing,
    ensures
        ({
            let on = Step::Place { path, bytes: Some(ours), backup };
            let off = Step::Place { path, bytes: None, backup };
            let once = applied(on, d);
            let twice = applied(on, once);
            forall|p: Seq<char>|
                #![trigger d(p)]
                applied(off, once)(p) == d(p) && (d(path@) is Bytes ==> applied(off, twice)(p) == d(p))
        }),
{
}

/// A file laid over one that was there gives it back: on, then off, and every
/// file is what it was; and where there was an original, on twice over, then
/// off, gives it back too.
pub proof fn law_cover_gives_back(
    path: String,
    ours: &'static [u8],
    backup: String,
    d: spec_fn(Seq<char>) -> disk::Seen,
)
    requires
        path@ != backup@,
        d(path@) is Bytes || d(path@) is Missing,
        d(backup@) is Missing,
    ensures
        ({
            let on = Step::Cover { path, ours, on: true, backup };
            let off = Step::Cover { path, ours, on: false, backup };
            let once = applied(on, d);
            let twice = applied(on, once);
            forall|p: Seq<char>|
                #![trigger d(p)]
                applied(off, once)(p) == d(p) && (d(path@) is Bytes ==> applied(off, twice)(p) == d(p))
        }),
{
}

/// What a file holds once a text was written to it.
proof fn lemma_written(
    file: Seq<char>,
    next: Seq<char>,
    d: spec_fn(Seq<char>) -> disk::Seen,
    current: Option<Seq<char>>,
)
    requires
        disk::text_at(d(file), file) == Ok::<Option<Seq<char>>, Seq<Seq<char>>>(current),
    ensures
        ({
            let e = disk::after(d, patch::written(file, current, next));
            &&& disk::text_at(e(file), file) == Ok::<Option<Seq<char>>, Seq<Seq<char>>>(Some(next))
            &&& forall|p: Seq<char>| p != file ==> #[trigger] e(p) == d(p)
        }),
{
    vstd::utf8::encode_utf8_valid_utf8(next);
    vstd::utf8::encode_utf8_decode_utf8(next);
}

/// A block that was set in a file is there, with the value of every key it
/// sets, as the step that set it wants it.
pub proof fn law_block_on_is_satisfied(
    file: String,
    id: String,
    body: String,
    form: Form,
    d: spec_fn(Seq<char>) -> disk::Seen,
)
    requires
        ({
            let base = match form {
                Form::Seeded(seed) => disk::text_at(d(seed@), seed@),
                _ => disk::text_at(d(file@), file@),
            };
            let t = match base {
                Ok(Some(t)) => t,
                _ => Seq::empty(),
            };
            &&& disk::text_at(d(file@), file@) is Ok
            &&& base is Ok
            &&& block_laws::good_id(id@)
            &&& block_laws::good_text(t, id@)
            &&& block_laws::good_body(body@, id@)
            &&& text::trim(text::join(block_laws::body_lines(body@), lines::feed())) == text::trim(body@)
            &&& form matches Form::Seeded(seed) ==> {
                &&& seed@ != file@
                &&& base != Ok::<Option<Seq<char>>, Seq<Seq<char>>>(None)
                &&& patch::same_but_end(blocks::cleared(t, id@).unwrap(), t)
            }
        }),
    ensures
        ({
            let on = Step::Block { file, id, body: Some(body), form };
            &&& patch::change_for(on, d) is Ok
            &&& patch::satisfied_in(on, applied(on, d))
        }),
{
    let base = match form {
        Form::Seeded(seed) => disk::text_at(d(seed@), seed@),
        _ => disk::text_at(d(file@), file@),
    };
    let t = match base {
        Ok(Some(t)) => t,
        _ => Seq::empty(),
    };
    let on = Step::Block { file, id, body: Some(body), form };
    block_laws::law_read_gives_back_what_was_set(t, id@, body@);
    block_laws::law_what_was_set_can_be_cleared(t, id@, body@);
    if form is Seeded {
        block_laws::law_what_clearing_leaves_ends_plain(t, id@);
        block_laws::law_clear_undoes_set(t, id@, body@);
    }
    block_laws::law_set_is_in_force(t, id@, body@);
    let next = blocks::block_set(t, id@, body@).unwrap();
    match disk::text_at(d(file@), file@) {
        Ok(current) => {
            lemma_written(file@, next, d, current);
            let c = blocks::cleared(t, id@).unwrap();
            let closed = text::trim_end(c).push('\n');
            assert(closed.drop_last() =~= text::trim_end(c));
            text::lemma_trim_of_trim_end(c);
            assert(text::trim_end(closed) == text::trim_end(c));
        },
        Err(_) => {},
    }
}

/// A block that was taken out of a file is not there, as the step that took it
/// out wants it.
pub proof fn law_block_off_is_satisfied(
    file: String,
    id: String,
    form: Form,
    d: spec_fn(Seq<char>) -> disk::Seen,
)
    requires
        disk::text_at(d(file@), file@) is Ok,
        disk::text_at(d(file@), file@) matches Ok(Some(t)) ==> block_laws::good_text(t, id@),
        form matches Form::Seeded(seed) ==> disk::text_at(d(seed@), seed@) is Ok,
        block_laws::good_id(id@),
    ensures
        ({
            let off = Step::Block { file, id, body: None, form };
            &&& patch::change_for(off, d) is Ok
            &&& patch::satisfied_in(off, applied(off, d))
        }),
{
    match disk::text_at(d(file@), file@) {
        Ok(Some(t)) => {
            let c = blocks::cleared(t, id@).unwrap();
            lemma_written(file@, c, d, Some(t));
            block_laws::law_cleared_has_no_block(t, id@);
            block_laws::law_nothing_has_no_block(id@);
        },
        Ok(None) => {
            block_laws::law_nothing_has_no_block(id@);
        },
        Err(_) => {},
    }
}

} // verus!
