//! What a plan for the saves promises: every save of either side is accounted for
//! once, and nothing is written over that the other side did not know of.

use vstd::prelude::*;
use crate::picks;
use crate::saves;
use crate::saves::{ClientSaveState, Held, Seen, ServerSave, SyncOperation, SyncPlan};

verus! {

/// Whether a save of the client and one of the server are of one game and file.
pub open spec fn same_save(c: ClientSaveState, s: ServerSave) -> bool {
    c.rom_id == s.rom_id && c.file_name@ == s.file_name@
}

/// Whether only the server has a save.
pub open spec fn only_server(client: Seq<ClientSaveState>, s: ServerSave) -> bool {
    forall|i: int| 0 <= i < client.len() ==> !same_save(#[trigger] client[i], s)
}

/// Whether only the client has a save.
pub open spec fn only_client(c: ClientSaveState, server: Seq<ServerSave>) -> bool {
    forall|j: int| 0 <= j < server.len() ==> !same_save(c, #[trigger] server[j])
}

/// Whether a text that may be missing is the same as another.
pub open spec fn same_text(a: Option<String>, b: Option<String>) -> bool {
    match (a, b) {
        (Some(x), Some(y)) => x@ == y@,
        (None, None) => true,
        _ => false,
    }
}

/// Whether an operation tells what the server holds for a save.
pub open spec fn tells_of(op: SyncOperation, s: ServerSave) -> bool {
    &&& op.rom_id == s.rom_id
    &&& op.save_id == Some(s.id)
    &&& op.file_name matches Some(f) && f@ == s.file_name@
    &&& same_text(op.server_content_hash, s.content_hash)
    &&& same_text(op.server_updated_at, s.updated_at)
}

/// Whether an operation is about a save of the client.
pub open spec fn is_about(op: SyncOperation, c: ClientSaveState) -> bool {
    &&& op.rom_id == c.rom_id
    &&& op.file_name matches Some(f) && f@ == c.file_name@
    &&& same_text(op.slot, c.slot)
    &&& same_text(op.emulator, c.emulator)
}

/// A plan begins with one operation for each save of the client, in order; after
/// these comes one download for each save that only the server has, in order, and
/// nothing else.
pub proof fn law_every_save_is_planned_for(
    device: &str,
    client: &Vec<ClientSaveState>,
    server: &Vec<ServerSave>,
    seen: &Seen,
    r: SyncPlan,
) -> (at: Seq<int>)
    requires
        call_ensures(saves::plan, (device, client, server, seen), r),
    ensures
        r.operations@.len() == client@.len() + at.len(),
        forall|i: int| 0 <= i < client@.len() ==> is_about(#[trigger] r.operations@[i], client@[i]),
        picks::are_places(server@, |s: ServerSave| only_server(client@, s), at),
        forall|k: int|
            0 <= k < at.len() ==> {
                let op = r.operations@[client@.len() + k];
                let s = server@[#[trigger] at[k]];
                &&& op.action@ == "download"@
                &&& tells_of(op, s)
                &&& same_text(op.slot, s.slot)
                &&& same_text(op.emulator, s.emulator)
            },
{
    let hs = saves::held(server@);
    let os = saves::ops(r.operations@);
    assert(os == saves::planned(device@, client@, hs, seen@));
    let f = |c: ClientSaveState|
        saves::client_op(
            c,
            saves::server_has(hs, c.rom_id, c.file_name@),
            saves::agreed(seen@, device@, c.rom_id, c.file_name@),
        );
    let g = |s: Held| !saves::client_has(client@, s.rom_id, s.file_name);
    let h = |s: Held| saves::server_op(s);
    assert(os == client@.map_values(f) + hs.filter(g).map_values(h));
    let at = picks::lemma_filter_places(hs, g);
    let want = |s: ServerSave| only_server(client@, s);
    assert forall|j: int| 0 <= j < hs.len() implies #[trigger] g(hs[j]) == want(server@[j]) by {
        assert(hs[j] == server@[j]@);
    }
    assert forall|k: int| 0 <= k < at.len() implies 0 <= #[trigger] at[k] < server@.len() && want(server@[at[k]]) by {
        assert(g(hs[at[k]]));
    }
    assert forall|j: int| 0 <= j < server@.len() && want(#[trigger] server@[j]) implies at.contains(j) by {
        assert(g(hs[j]));
    }
    assert forall|i: int| 0 <= i < client@.len() implies is_about(#[trigger] r.operations@[i], client@[i]) by {
        assert(os[i] == r.operations@[i]@);
        assert(os[i] == f(client@[i]));
    }
    assert forall|k: int| 0 <= k < at.len() implies {
        let op = r.operations@[client@.len() + k];
        let s = server@[#[trigger] at[k]];
        &&& op.action@ == "download"@
        &&& tells_of(op, s)
        &&& same_text(op.slot, s.slot)
        &&& same_text(op.emulator, s.emulator)
    } by {
        let i = client@.len() + k;
        assert(os[i] == r.operations@[i]@);
        assert(os[i] == h(hs.filter(g)[k]));
        assert(hs[at[k]] == server@[at[k]]@);
    }
    at
}

/// What a device last agreed with the server about for a save, if anything.
pub open spec fn last_agreed(seen: Seen, device: Seq<char>, c: ClientSaveState) -> Option<Seq<char>> {
    let k = (device, c.rom_id, c.file_name@);
    if seen@.contains_key(k) {
        Some(seen@[k]@)
    } else {
        None
    }
}

/// A save that only the client has goes up. One that both have is left alone where
/// the bytes are the same; goes up where the device last agreed on what the server
/// still holds; comes down where it last agreed on what the client still holds; and
/// is a conflict otherwise, and wherever nothing was agreed.
pub proof fn law_a_save_moves_only_where_one_side_changed(
    device: &str,
    client: &Vec<ClientSaveState>,
    server: &Vec<ServerSave>,
    seen: &Seen,
    r: SyncPlan,
    i: int,
)
    requires
        call_ensures(saves::plan, (device, client, server, seen), r),
        0 <= i < client@.len(),
    ensures
        ({
            let c = client@[i];
            let op = r.operations@[i];
            let last = last_agreed(*seen, device@, c);
            &&& only_client(c, server@) ==> op.action@ == "upload"@ && op.save_id is None
                && op.server_content_hash is None && op.server_updated_at is None
            &&& forall|j: int|
                0 <= j < server@.len() && same_save(c, #[trigger] server@[j]) && (forall|k: int|
                    j < k < server@.len() ==> !same_save(c, #[trigger] server@[k])) ==> {
                    let s = server@[j];
                    let same = s.content_hash matches Some(h) && h@ == c.content_hash@;
                    let knew_server = last matches Some(l) && s.content_hash matches Some(h) && l == h@;
                    let knew_client = last == Some(c.content_hash@);
                    &&& tells_of(op, s)
                    &&& same ==> op.action@ == "no_op"@
                    &&& !same && knew_server ==> op.action@ == "upload"@
                    &&& !same && knew_client ==> op.action@ == "download"@
                    &&& !same && !knew_server && !knew_client ==> op.action@ == "conflict"@
                }
        }),
{
    let hs = saves::held(server@);
    let os = saves::ops(r.operations@);
    let c = client@[i];
    let f = |c: ClientSaveState|
        saves::client_op(
            c,
            saves::server_has(hs, c.rom_id, c.file_name@),
            saves::agreed(seen@, device@, c.rom_id, c.file_name@),
        );
    assert(os == saves::planned(device@, client@, hs, seen@));
    assert(os[i] == f(c));
    assert(os[i] == r.operations@[i]@);
    let op = r.operations@[i];
    assert forall|j: int| 0 <= j < server@.len() && same_save(c, #[trigger] server@[j]) && (forall|k: int|
        j < k < server@.len() ==> !same_save(c, #[trigger] server@[k])) implies saves::server_has(
        hs,
        c.rom_id,
        c.file_name@,
    ) == Some(server@[j]@) by {
        assert forall|k: int| j < k < hs.len() implies !((#[trigger] hs[k]).rom_id == c.rom_id && hs[k].file_name
            == c.file_name@) by {
            assert(!same_save(c, server@[k]));
        }
        lemma_server_has(hs, c.rom_id, c.file_name@, j);
    }
    if only_client(c, server@) {
        assert forall|k: int| 0 <= k < hs.len() implies !((#[trigger] hs[k]).rom_id == c.rom_id && hs[k].file_name
            == c.file_name@) by {
            assert(!same_save(c, server@[k]));
        }
        lemma_server_lacks(hs, c.rom_id, c.file_name@);
    }
}

proof fn lemma_server_has(hs: Seq<Held>, rom_id: i64, file: Seq<char>, j: int)
    requires
        0 <= j < hs.len(),
        hs[j].rom_id == rom_id,
        hs[j].file_name == file,
        forall|k: int| j < k < hs.len() ==> !((#[trigger] hs[k]).rom_id == rom_id && hs[k].file_name == file),
    ensures
        saves::server_has(hs, rom_id, file) == Some(hs[j]),
    decreases hs.len(),
{
    if j < hs.len() - 1 {
        let front = hs.drop_last();
        assert forall|k: int| j < k < front.len() implies !((#[trigger] front[k]).rom_id == rom_id
            && front[k].file_name == file) by {
            assert(front[k] == hs[k]);
        }
        lemma_server_has(front, rom_id, file, j);
        let n = hs.len() - 1;
        assert(!(hs[n].rom_id == rom_id && hs[n].file_name == file));
    }
}

proof fn lemma_server_lacks(hs: Seq<Held>, rom_id: i64, file: Seq<char>)
    requires
        forall|k: int| 0 <= k < hs.len() ==> !((#[trigger] hs[k]).rom_id == rom_id && hs[k].file_name == file),
    ensures
        saves::server_has(hs, rom_id, file) is None,
    decreases hs.len(),
{
    if hs.len() > 0 {
        let front = hs.drop_last();
        assert forall|k: int| 0 <= k < front.len() implies !((#[trigger] front[k]).rom_id == rom_id
            && front[k].file_name == file) by {
            assert(front[k] == hs[k]);
        }
        lemma_server_lacks(front, rom_id, file);
        let n = hs.len() - 1;
        assert(!(hs[n].rom_id == rom_id && hs[n].file_name == file));
    }
}

/// Whether an operation is of a kind.
pub open spec fn of_kind(action: Seq<char>) -> spec_fn(SyncOperation) -> bool {
    |o: SyncOperation| o.action@ == action
}

/// The totals of a plan are how many of its operations are of each kind.
pub proof fn law_totals_count_the_operations(
    device: &str,
    client: &Vec<ClientSaveState>,
    server: &Vec<ServerSave>,
    seen: &Seen,
    r: SyncPlan,
)
    requires
        call_ensures(saves::plan, (device, client, server, seen), r),
    ensures
        r.total_upload == r.operations@.filter(of_kind("upload"@)).len(),
        r.total_download == r.operations@.filter(of_kind("download"@)).len(),
        r.total_conflict == r.operations@.filter(of_kind("conflict"@)).len(),
        r.total_no_op == r.operations@.filter(of_kind("no_op"@)).len(),
        r.total_upload + r.total_download + r.total_conflict + r.total_no_op == r.operations@.len(),
{
    lemma_counted(r.operations@, "upload"@);
    lemma_counted(r.operations@, "download"@);
    lemma_counted(r.operations@, "conflict"@);
    lemma_counted(r.operations@, "no_op"@);
    saves::law_totals_add_up(device@, client@, saves::held(server@), seen@);
}

proof fn lemma_counted(os: Seq<SyncOperation>, action: Seq<char>)
    ensures
        saves::count_of(saves::ops(os), action) == os.filter(of_kind(action)).len(),
    decreases os.len(),
{
    reveal(Seq::filter);
    if os.len() > 0 {
        lemma_counted(os.drop_last(), action);
        assert(saves::ops(os).drop_last() =~= saves::ops(os.drop_last()));
        assert(saves::ops(os).last() == os.last()@);
    }
}

} // verus!
