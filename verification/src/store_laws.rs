//! What the stores of saves and states list, in which order, and under which ids.

use vstd::prelude::*;
use crate::crypto;
use crate::number;
use crate::order;
use crate::save_store;
use crate::save_store::{FoundDir, FoundSave, FoundState, FoundStates, SaveStore, ServerState, StateStore};
use crate::saves;
use crate::saves::ServerSave;
use crate::text;

verus! {

/// Things put in order are the same things, as many of them.
proof fn lemma_put_in_order<A>(s: Seq<A>, ahead: spec_fn(A, A) -> bool)
    ensures
        save_store::put_in_order(s, ahead).len() == s.len(),
        forall|x: A| #[trigger] save_store::put_in_order(s, ahead).contains(x) == s.contains(x),
    decreases s.len(),
{
    if s.len() > 0 {
        let front = s.drop_last();
        let n = s.len() - 1;
        lemma_put_in_order(front, ahead);
        let before = save_store::put_in_order(front, ahead);
        lemma_put_in(before, s.last(), ahead);
        let after = save_store::put_in_order(s, ahead);
        assert forall|x: A| #[trigger] after.contains(x) == s.contains(x) by {
            assert(after.contains(x) == (before.contains(x) || x == s.last()));
            if front.contains(x) {
                assert(s[front.index_of(x)] == x);
            }
            if s.contains(x) {
                let k = s.index_of(x);
                if k < n {
                    assert(front[k] == x);
                }
            }
            assert(s[n] == s.last());
        }
    }
}

proof fn lemma_put_in<A>(s: Seq<A>, x: A, ahead: spec_fn(A, A) -> bool)
    ensures
        save_store::put_in(s, x, ahead).len() == s.len() + 1,
        forall|y: A| #[trigger] save_store::put_in(s, x, ahead).contains(y) == (s.contains(y) || y == x),
    decreases s.len(),
{
    let r = save_store::put_in(s, x, ahead);
    if s.len() > 0 && ahead(x, s.last()) {
        let front = s.drop_last();
        lemma_put_in(front, x, ahead);
        let some = save_store::put_in(front, x, ahead);
        assert forall|y: A| #[trigger] r.contains(y) == (s.contains(y) || y == x) by {
            if r.contains(y) {
                let k = r.index_of(y);
                if k < some.len() {
                    assert(some[k] == y);
                    assert(some.contains(y));
                    if front.contains(y) {
                        assert(s[front.index_of(y)] == y);
                    }
                } else {
                    assert(s[s.len() - 1] == y);
                }
            }
            if s.contains(y) || y == x {
                if y == s.last() {
                    assert(r[r.len() - 1] == y);
                } else {
                    if s.contains(y) {
                        assert(front[s.index_of(y)] == y);
                    }
                    assert(some.contains(y));
                    assert(r[some.index_of(y)] == y);
                }
            }
        }
    } else {
        assert forall|y: A| #[trigger] r.contains(y) == (s.contains(y) || y == x) by {
            if r.contains(y) {
                let k = r.index_of(y);
                if k < s.len() {
                    assert(s[k] == y);
                }
            }
            if s.contains(y) {
                assert(r[s.index_of(y)] == y);
            }
            if y == x {
                assert(r[s.len() as int] == y);
            }
        }
    }
}

/// Whether a directory is that of a game: its name is the game's number, and not an
/// old one.
pub open spec fn is_of_game(name: Seq<char>, old_ids: Seq<i64>, rom_id: i64) -> bool {
    number::signed(name) == Some(rom_id as int) && !old_ids.contains(rom_id)
}

/// Whether a save is a file that was found under a game.
pub open spec fn is_save(s: ServerSave, rom_id: i64, f: FoundSave) -> bool {
    &&& s.id == save_store::id_of(rom_id, f.name@)
    &&& s.rom_id == rom_id
    &&& s.file_name@ == f.name@
    &&& f.bytes@.len() <= i64::MAX ==> s.file_size_bytes == f.bytes@.len()
    &&& s.content_hash matches Some(h) && h@ == crypto::hex_text(crypto::md5_of(f.bytes@))
    &&& s.slot is None && s.emulator is None
    &&& match f.modified {
        Some(m) => s.updated_at matches Some(t) && t@ == number::decimal(m as nat),
        None => s.updated_at is None,
    }
}

/// Whether a save is some file that was found under its game.
pub open spec fn is_some_save(s: ServerSave, found: Seq<FoundDir>, old_ids: Seq<i64>) -> bool {
    exists|d: int, i: int|
        0 <= d < found.len() && 0 <= i < found[d].files@.len() && is_of_game(found[d].name@, old_ids, s.rom_id)
            && is_save(s, s.rom_id, #[trigger] found[d].files@[i])
}

/// Whether a file that was found is among some saves.
pub open spec fn is_saved(r: Seq<ServerSave>, rom_id: i64, f: FoundSave) -> bool {
    exists|k: int| 0 <= k < r.len() && is_save(#[trigger] r[k], rom_id, f)
}

proof fn lemma_all_saves(found: Seq<FoundDir>, old_ids: Seq<i64>, h: saves::Held)
    ensures
        save_store::all_saves(found, old_ids).contains(h) <==> exists|d: int, i: int|
            0 <= d < found.len() && 0 <= i < found[d].files@.len() && is_of_game(
                found[d].name@,
                old_ids,
                h.rom_id,
            ) && h == save_store::save_found(h.rom_id, #[trigger] found[d].files@[i]),
    decreases found.len(),
{
    if found.len() > 0 {
        let front = found.drop_last();
        let n = found.len() - 1;
        lemma_all_saves(front, old_ids, h);
        let before = save_store::all_saves(front, old_ids);
        let here = save_store::dir_saves(found.last(), old_ids);
        let all = save_store::all_saves(found, old_ids);
        assert(found[n] == found.last());
        if all.contains(h) {
            let k = all.index_of(h);
            if k < before.len() {
                assert(before[k] == h);
                let (d, i) = choose|d: int, i: int|
                    0 <= d < front.len() && 0 <= i < front[d].files@.len() && is_of_game(
                        front[d].name@,
                        old_ids,
                        h.rom_id,
                    ) && h == save_store::save_found(h.rom_id, #[trigger] front[d].files@[i]);
                assert(found[d] == front[d]);
                assert(h == save_store::save_found(h.rom_id, found[d].files@[i]));
            } else {
                let i = k - before.len();
                assert(here[i] == h);
                assert(h == save_store::save_found(h.rom_id, found[n].files@[i]));
            }
        }
        if exists|d: int, i: int|
            0 <= d < found.len() && 0 <= i < found[d].files@.len() && is_of_game(
                found[d].name@,
                old_ids,
                h.rom_id,
            ) && h == save_store::save_found(h.rom_id, #[trigger] found[d].files@[i]) {
            let (d, i) = choose|d: int, i: int|
                0 <= d < found.len() && 0 <= i < found[d].files@.len() && is_of_game(
                    found[d].name@,
                    old_ids,
                    h.rom_id,
                ) && h == save_store::save_found(h.rom_id, #[trigger] found[d].files@[i]);
            if d < n {
                assert(front[d] == found[d]);
                assert(h == save_store::save_found(h.rom_id, front[d].files@[i]));
                assert(before.contains(h));
                assert(all[before.index_of(h)] == h);
            } else {
                assert(here[i] == h);
                assert(all[before.len() + i] == h);
            }
        }
    }
}

/// How many files were found under games.
pub open spec fn files_found(found: Seq<FoundDir>, old_ids: Seq<i64>) -> nat
    decreases found.len(),
{
    if found.len() == 0 {
        0
    } else {
        files_found(found.drop_last(), old_ids) + if exists|rom_id: i64| #[trigger]
            is_of_game(found.last().name@, old_ids, rom_id) {
            found.last().files@.len()
        } else {
            0
        }
    }
}

proof fn lemma_files_found(found: Seq<FoundDir>, old_ids: Seq<i64>)
    ensures
        save_store::all_saves(found, old_ids).len() == files_found(found, old_ids),
    decreases found.len(),
{
    if found.len() > 0 {
        lemma_files_found(found.drop_last(), old_ids);
        let name = found.last().name@;
        if let Some(rom_id) = save_store::dir_rom(name, old_ids) {
            assert(is_of_game(name, old_ids, rom_id));
        }
    }
}

/// Every file under a game's directory is listed as that game's, once, with its own
/// id, size, hash and time; nothing else is, and nothing under an old id. They come
/// by game and then by name.
pub proof fn law_every_save_is_listed_once(
    store: &SaveStore,
    found: &Vec<FoundDir>,
    old_ids: &Vec<i64>,
    r: Vec<ServerSave>,
)
    requires
        call_ensures(SaveStore::list, (store, found, old_ids), r),
    ensures
        r@.len() == files_found(found@, old_ids@),
        forall|k: int| 0 <= k < r@.len() ==> is_some_save(#[trigger] r@[k], found@, old_ids@),
        forall|d: int, i: int, rom_id: i64|
            0 <= d < found@.len() && 0 <= i < found@[d].files@.len() && #[trigger] is_of_game(
                found@[d].name@,
                old_ids@,
                rom_id,
            ) ==> is_saved(r@, rom_id, #[trigger] found@[d].files@[i]),
        forall|i: int, j: int|
            0 <= i < j < r@.len() ==> (#[trigger] r@[i]).rom_id < (#[trigger] r@[j]).rom_id || (r@[i].rom_id
                == r@[j].rom_id && !order::less(r@[j].file_name@, r@[i].file_name@)),
{
    let all = save_store::all_saves(found@, old_ids@);
    let out = saves::held(r@);
    lemma_put_in_order(all, save_store::save_ahead());
    lemma_files_found(found@, old_ids@);
    assert(out.len() == r@.len());
    assert forall|k: int| 0 <= k < r@.len() implies is_some_save(#[trigger] r@[k], found@, old_ids@) by {
        let h = out[k];
        assert(h == r@[k]@);
        assert(out.contains(h));
        assert(all.contains(h));
        lemma_all_saves(found@, old_ids@, h);
        let (d, i) = choose|d: int, i: int|
            0 <= d < found@.len() && 0 <= i < found@[d].files@.len() && is_of_game(
                found@[d].name@,
                old_ids@,
                h.rom_id,
            ) && h == save_store::save_found(h.rom_id, #[trigger] found@[d].files@[i]);
        assert(is_save(r@[k], r@[k].rom_id, found@[d].files@[i]));
    }
    assert forall|d: int, i: int, rom_id: i64|
        0 <= d < found@.len() && 0 <= i < found@[d].files@.len() && #[trigger] is_of_game(
            found@[d].name@,
            old_ids@,
            rom_id,
        ) implies is_saved(r@, rom_id, #[trigger] found@[d].files@[i]) by {
        let h = save_store::save_found(rom_id, found@[d].files@[i]);
        lemma_all_saves(found@, old_ids@, h);
        assert(all.contains(h));
        assert(out.contains(h));
        let k = out.index_of(h);
        assert(h == r@[k]@);
        assert(is_save(r@[k], rom_id, found@[d].files@[i]));
    }
    assert forall|i: int, j: int| 0 <= i < j < r@.len() implies (#[trigger] r@[i]).rom_id < (
    #[trigger] r@[j]).rom_id || (r@[i].rom_id == r@[j].rom_id && !order::less(
        r@[j].file_name@,
        r@[i].file_name@,
    )) by {
        assert(save_store::not_after(r@[i], r@[j]));
    }
}

// ---------------------------------------------------------------------------
// States
// ---------------------------------------------------------------------------

/// Whether a file is a state, rather than the note beside one that names its
/// emulator.
pub open spec fn counts_as_state() -> spec_fn(FoundState) -> bool {
    |f: FoundState| !(f.name@.len() > 0 && f.name@[0] == '.' && text::ends(f.name@, ".emulator"@))
}

/// Whether a state is a file that was found under a game.
pub open spec fn is_state(s: ServerState, rom_id: i64, f: FoundState) -> bool {
    &&& s.id == save_store::id_of(rom_id, f.name@)
    &&& s.rom_id == rom_id
    &&& s.file_name@ == f.name@
    &&& f.size <= i64::MAX ==> s.file_size_bytes == f.size
    &&& match f.sidecar {
        Some(note) => if text::trim(note@).len() > 0 {
            s.emulator matches Some(e) && e@ == text::trim(note@)
        } else {
            s.emulator is None
        },
        None => s.emulator is None,
    }
    &&& match f.modified {
        Some(m) => s.updated_at matches Some(t) && t@ == number::decimal(m as nat),
        None => s.updated_at is None,
    }
}

proof fn lemma_states_in(rom_id: i64, files: Seq<FoundState>, h: save_store::HeldState)
    ensures
        save_store::states_in(rom_id, files).contains(h) <==> exists|i: int|
            0 <= i < files.len() && counts_as_state()(#[trigger] files[i]) && h == save_store::state_found(
                rom_id,
                files[i],
            ),
        save_store::states_in(rom_id, files).len() == files.filter(counts_as_state()).len(),
    decreases files.len(),
{
    reveal(Seq::filter);
    if files.len() > 0 {
        let front = files.drop_last();
        let n = files.len() - 1;
        lemma_states_in(rom_id, front, h);
        let before = save_store::states_in(rom_id, front);
        let all = save_store::states_in(rom_id, files);
        assert(files[n] == files.last());
        assert(counts_as_state()(files[n]) == !save_store::is_sidecar(files[n].name@));
        if all.contains(h) {
            let k = all.index_of(h);
            if k < before.len() {
                assert(before[k] == h);
                let i = choose|i: int|
                    0 <= i < front.len() && counts_as_state()(#[trigger] front[i]) && h
                        == save_store::state_found(rom_id, front[i]);
                assert(files[i] == front[i]);
            } else {
                assert(h == save_store::state_found(rom_id, files[n]));
            }
        }
        if exists|i: int|
            0 <= i < files.len() && counts_as_state()(#[trigger] files[i]) && h == save_store::state_found(
                rom_id,
                files[i],
            ) {
            let i = choose|i: int|
                0 <= i < files.len() && counts_as_state()(#[trigger] files[i]) && h == save_store::state_found(
                    rom_id,
                    files[i],
                );
            if i < n {
                assert(front[i] == files[i]);
                assert(before.contains(h));
                assert(all[before.index_of(h)] == h);
            } else {
                assert(all[all.len() - 1] == h);
            }
        }
    }
}

/// Whether a directory holds a file that is a state of a game.
pub open spec fn holds_state(d: FoundStates, old_ids: Seq<i64>, h: save_store::HeldState) -> bool {
    &&& is_of_game(d.name@, old_ids, h.rom_id)
    &&& exists|i: int|
        0 <= i < d.files@.len() && counts_as_state()(#[trigger] d.files@[i]) && h == save_store::state_found(
            h.rom_id,
            d.files@[i],
        )
}

proof fn lemma_all_states(found: Seq<FoundStates>, old_ids: Seq<i64>, h: save_store::HeldState)
    ensures
        save_store::all_states(found, old_ids).contains(h) <==> exists|d: int|
            0 <= d < found.len() && holds_state(#[trigger] found[d], old_ids, h),
    decreases found.len(),
{
    if found.len() > 0 {
        let front = found.drop_last();
        let n = found.len() - 1;
        let last = found.last();
        lemma_all_states(front, old_ids, h);
        let before = save_store::all_states(front, old_ids);
        let here = match save_store::dir_rom(last.name@, old_ids) {
            Some(rom_id) => save_store::states_in(rom_id, last.files@),
            None => Seq::empty(),
        };
        let all = save_store::all_states(found, old_ids);
        assert(all == before + here);
        assert(found[n] == last);
        if let Some(rom_id) = save_store::dir_rom(last.name@, old_ids) {
            lemma_states_in(rom_id, last.files@, h);
        }
        if all.contains(h) {
            let k = all.index_of(h);
            if k < before.len() {
                assert(before[k] == h);
                let d = choose|d: int| 0 <= d < front.len() && holds_state(#[trigger] front[d], old_ids, h);
                assert(found[d] == front[d]);
            } else {
                assert(here[k - before.len()] == h);
                assert(here.contains(h));
                assert(holds_state(found[n], old_ids, h));
            }
        }
        if exists|d: int| 0 <= d < found.len() && holds_state(#[trigger] found[d], old_ids, h) {
            let d = choose|d: int| 0 <= d < found.len() && holds_state(#[trigger] found[d], old_ids, h);
            if d < n {
                assert(front[d] == found[d]);
                assert(before.contains(h));
                assert(all[before.index_of(h)] == h);
            } else {
                assert(here.contains(h));
                assert(all[before.len() + here.index_of(h)] == h);
            }
        }
    }
}

/// Whether a state is some file that was found under its game.
pub open spec fn is_some_state(s: ServerState, found: Seq<FoundStates>, old_ids: Seq<i64>) -> bool {
    exists|d: int, i: int|
        0 <= d < found.len() && 0 <= i < found[d].files@.len() && is_of_game(found[d].name@, old_ids, s.rom_id)
            && counts_as_state()(found[d].files@[i]) && is_state(s, s.rom_id, #[trigger] found[d].files@[i])
}

/// Whether a file that was found is among some states.
pub open spec fn is_kept(r: Seq<ServerState>, rom_id: i64, f: FoundState) -> bool {
    exists|k: int| 0 <= k < r.len() && is_state(#[trigger] r[k], rom_id, f)
}

/// Every state under a game's directory is listed as that game's, with the emulator
/// that the note beside it names; a note is no state, and nothing under an old id is
/// listed. They come by game and then by name.
pub proof fn law_every_state_is_listed(
    store: &StateStore,
    found: &Vec<FoundStates>,
    old_ids: &Vec<i64>,
    r: Vec<ServerState>,
)
    requires
        call_ensures(StateStore::list, (store, found, old_ids), r),
    ensures
        r@.len() == save_store::all_states(found@, old_ids@).len(),
        forall|k: int| 0 <= k < r@.len() ==> is_some_state(#[trigger] r@[k], found@, old_ids@),
        forall|d: int, i: int, rom_id: i64|
            0 <= d < found@.len() && 0 <= i < found@[d].files@.len() && counts_as_state()(found@[d].files@[i])
                && #[trigger] is_of_game(found@[d].name@, old_ids@, rom_id) ==> is_kept(
                r@,
                rom_id,
                #[trigger] found@[d].files@[i],
            ),
        forall|i: int, j: int|
            0 <= i < j < r@.len() ==> (#[trigger] r@[i]).rom_id < (#[trigger] r@[j]).rom_id || (r@[i].rom_id
                == r@[j].rom_id && !order::less(r@[j].file_name@, r@[i].file_name@)),
{
    let all = save_store::all_states(found@, old_ids@);
    let out = save_store::held_states(r@);
    lemma_put_in_order(all, save_store::state_ahead());
    assert(out.len() == r@.len());
    assert forall|k: int| 0 <= k < r@.len() implies is_some_state(#[trigger] r@[k], found@, old_ids@) by {
        let h = out[k];
        assert(h == r@[k]@);
        assert(out.contains(h));
        assert(all.contains(h));
        lemma_all_states(found@, old_ids@, h);
        let d = choose|d: int| 0 <= d < found@.len() && holds_state(#[trigger] found@[d], old_ids@, h);
        let i = choose|i: int|
            0 <= i < found@[d].files@.len() && counts_as_state()(#[trigger] found@[d].files@[i]) && h
                == save_store::state_found(h.rom_id, found@[d].files@[i]);
        assert(is_state(r@[k], r@[k].rom_id, found@[d].files@[i]));
    }
    assert forall|d: int, i: int, rom_id: i64|
        0 <= d < found@.len() && 0 <= i < found@[d].files@.len() && counts_as_state()(found@[d].files@[i])
            && #[trigger] is_of_game(found@[d].name@, old_ids@, rom_id) implies is_kept(
        r@,
        rom_id,
        #[trigger] found@[d].files@[i],
    ) by {
        let h = save_store::state_found(rom_id, found@[d].files@[i]);
        lemma_all_states(found@, old_ids@, h);
        assert(holds_state(found@[d], old_ids@, h));
        assert(all.contains(h));
        assert(out.contains(h));
        let k = out.index_of(h);
        assert(h == r@[k]@);
        assert(is_state(r@[k], rom_id, found@[d].files@[i]));
    }
    assert forall|i: int, j: int| 0 <= i < j < r@.len() implies (#[trigger] r@[i]).rom_id < (
    #[trigger] r@[j]).rom_id || (r@[i].rom_id == r@[j].rom_id && !order::less(
        r@[j].file_name@,
        r@[i].file_name@,
    )) by {
        assert(save_store::not_after(r@[i], r@[j]));
    }
}

// ---------------------------------------------------------------------------
// Ids
// ---------------------------------------------------------------------------

/// What an id is made of tells the game and the file: two saves of different games
/// or different names are made into ids from different bytes.
pub proof fn law_an_id_is_made_of_the_game_and_the_file(a: i64, f: Seq<char>, b: i64, g: Seq<char>)
    requires
        save_store::id_bytes(a, f) == save_store::id_bytes(b, g),
    ensures
        a == b,
        f == g,
{
    vstd::bytes::lemma_auto_spec_u64_to_from_le_bytes();
    let x = vstd::bytes::spec_u64_to_le_bytes(a as u64);
    let y = vstd::bytes::spec_u64_to_le_bytes(b as u64);
    let p = save_store::id_bytes(a, f);
    let q = save_store::id_bytes(b, g);
    assert(p.take(8) =~= x && q.take(8) =~= y);
    assert(a as u64 == b as u64);
    assert(a as u64 == b as u64 ==> a == b) by (bit_vector);
    let u = vstd::utf8::encode_utf8(f);
    let v = vstd::utf8::encode_utf8(g);
    assert(p.skip(9) =~= u && q.skip(9) =~= v);
    vstd::utf8::encode_utf8_decode_utf8(f);
    vstd::utf8::encode_utf8_decode_utf8(g);
}

} // verus!
