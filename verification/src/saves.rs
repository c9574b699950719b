//! Save sync: which of several machines has the newest copy of a save, and
//! whether two of them changed it since they last agreed.
//!
//! Saves are files, `<root>/<rom id>/<file name>`. What the library is told of
//! them is what was found on disk; what it remembers is what each device last
//! agreed on.

use vstd::prelude::*;
use crate::table::{Key, Table};
use crate::text;

verus! {

/// What a client believes it holds for one save.
#[derive(Debug)]
pub struct ClientSaveState {
    pub rom_id: i64,
    pub file_name: String,
    pub slot: Option<String>,
    pub emulator: Option<String>,
    pub content_hash: String,
    pub updated_at: String,
    pub file_size_bytes: i64,
}

/// What the server holds for one save.
#[derive(Debug)]
pub struct ServerSave {
    pub id: i64,
    pub rom_id: i64,
    pub file_name: String,
    pub file_size_bytes: i64,
    pub content_hash: Option<String>,
    pub slot: Option<String>,
    pub emulator: Option<String>,
    pub updated_at: Option<String>,
}

/// What should happen to one save.
#[derive(Debug)]
pub struct SyncOperation {
    /// `upload`, `download`, `conflict` or `no_op`.
    pub action: String,
    pub rom_id: i64,
    pub save_id: Option<i64>,
    pub file_name: Option<String>,
    pub slot: Option<String>,
    pub emulator: Option<String>,
    /// Why this action was chosen, for a person deciding what to do about a
    /// conflict.
    pub reason: String,
    pub server_content_hash: Option<String>,
    pub server_updated_at: Option<String>,
}

/// What should happen to every save.
#[derive(Debug)]
pub struct SyncPlan {
    pub session_id: Option<i64>,
    pub operations: Vec<SyncOperation>,
    pub total_upload: i64,
    pub total_download: i64,
    pub total_conflict: i64,
    pub total_no_op: i64,
}

/// A save as the server holds it, as a value.
pub struct Held {
    pub id: i64,
    pub rom_id: i64,
    pub file_name: Seq<char>,
    pub file_size_bytes: i64,
    pub content_hash: Option<Seq<char>>,
    pub slot: Option<Seq<char>>,
    pub emulator: Option<Seq<char>>,
    pub updated_at: Option<Seq<char>>,
}

impl View for ServerSave {
    type V = Held;

    open spec fn view(&self) -> Held {
        Held {
            id: self.id,
            rom_id: self.rom_id,
            file_name: self.file_name@,
            file_size_bytes: self.file_size_bytes,
            content_hash: text::opt(self.content_hash),
            slot: text::opt(self.slot),
            emulator: text::opt(self.emulator),
            updated_at: text::opt(self.updated_at),
        }
    }
}

/// What should happen to one save, as a value.
pub struct Op {
    pub action: Seq<char>,
    pub rom_id: i64,
    pub save_id: Option<i64>,
    pub file_name: Option<Seq<char>>,
    pub slot: Option<Seq<char>>,
    pub emulator: Option<Seq<char>>,
    pub reason: Seq<char>,
    pub server_content_hash: Option<Seq<char>>,
    pub server_updated_at: Option<Seq<char>>,
}

impl View for SyncOperation {
    type V = Op;

    open spec fn view(&self) -> Op {
        Op {
            action: self.action@,
            rom_id: self.rom_id,
            save_id: self.save_id,
            file_name: text::opt(self.file_name),
            slot: text::opt(self.slot),
            emulator: text::opt(self.emulator),
            reason: self.reason@,
            server_content_hash: text::opt(self.server_content_hash),
            server_updated_at: text::opt(self.server_updated_at),
        }
    }
}

/// What some saves are, as values.
pub open spec fn held(s: Seq<ServerSave>) -> Seq<Held> {
    s.map_values(|x: ServerSave| x@)
}

/// What some operations are, as values.
pub open spec fn ops(s: Seq<SyncOperation>) -> Seq<Op> {
    s.map_values(|x: SyncOperation| x@)
}

// ---------------------------------------------------------------------------
// What a device last agreed on
// ---------------------------------------------------------------------------

/// A device, a game and a file.
#[derive(Debug)]
pub struct SeenKey {
    pub device: String,
    pub rom_id: i64,
    pub file: String,
}

impl Key for SeenKey {
    type K = (Seq<char>, i64, Seq<char>);

    open spec fn of(&self) -> (Seq<char>, i64, Seq<char>) {
        (self.device@, self.rom_id, self.file@)
    }

    fn same(&self, other: &SeenKey) -> (r: bool) {
        self.rom_id == other.rom_id && text::same(&self.device, &other.device) && text::same(
            &self.file,
            &other.file,
        )
    }
}

/// What a device last agreed with the server about, per save.
///
/// Without it the only question that can be asked is "are these different",
/// and the answer is the same whether one side changed or both did.
pub type Seen = Table<SeenKey, String>;

/// The key of a save on a device.
pub fn key(device: &str, rom_id: i64, file: &str) -> (r: SeenKey)
    ensures
        r.of() == (device@, rom_id, file@),
{
    SeenKey { device: text::owned(device), rom_id, file: text::owned(file) }
}

/// The hash a device last agreed on for a save.
pub open spec fn agreed(
    seen: Map<(Seq<char>, i64, Seq<char>), String>,
    device: Seq<char>,
    rom_id: i64,
    file: Seq<char>,
) -> Option<Seq<char>> {
    if seen.contains_key((device, rom_id, file)) {
        Some(seen[(device, rom_id, file)]@)
    } else {
        None
    }
}

// ---------------------------------------------------------------------------
// The plan
// ---------------------------------------------------------------------------

/// The save that the server holds for a game and a file: the last of them.
pub open spec fn server_has(server: Seq<Held>, rom_id: i64, file: Seq<char>) -> Option<Held>
    decreases server.len(),
{
    if server.len() == 0 {
        None
    } else if server.last().rom_id == rom_id && server.last().file_name == file {
        Some(server.last())
    } else {
        server_has(server.drop_last(), rom_id, file)
    }
}

/// Whether a client has a save for a game and a file.
pub open spec fn client_has(client: Seq<ClientSaveState>, rom_id: i64, file: Seq<char>) -> bool {
    exists|i: int|
        0 <= i < client.len() && (#[trigger] client[i]).rom_id == rom_id && client[i].file_name@ == file
}

/// What to do about a save that both sides have, and why.
///
/// * The same bytes: nothing, whatever the clocks say.
/// * The device last agreed on what the server holds: the device changed it
///   alone, so upload.
/// * The device last agreed on what it holds itself: the server changed it
///   alone, so download.
/// * Otherwise both changed, or nothing was ever agreed: a conflict, never
///   resolved silently.
pub open spec fn verdict(
    client: Seq<char>,
    server: Option<Seq<char>>,
    last: Option<Seq<char>>,
) -> (Seq<char>, Seq<char>) {
    if server == Some(client) {
        ("no_op"@, "both sides hold the same bytes"@)
    } else if last is Some && last == server {
        ("upload"@, "changed here since this device last agreed with the server"@)
    } else if last == Some(client) {
        ("download"@, "changed on the server since this device last agreed"@)
    } else {
        ("conflict"@, "both copies changed since they last agreed; pick one"@)
    }
}

/// What should happen to a save of the client.
pub open spec fn client_op(c: ClientSaveState, s: Option<Held>, last: Option<Seq<char>>) -> Op {
    let (action, reason) = match s {
        None => ("upload"@, "the server does not have this save"@),
        Some(s) => verdict(c.content_hash@, s.content_hash, last),
    };
    Op {
        action,
        rom_id: c.rom_id,
        save_id: match s {
            Some(s) => Some(s.id),
            None => None,
        },
        file_name: Some(c.file_name@),
        slot: text::opt(c.slot),
        emulator: text::opt(c.emulator),
        reason,
        server_content_hash: match s {
            Some(s) => s.content_hash,
            None => None,
        },
        server_updated_at: match s {
            Some(s) => s.updated_at,
            None => None,
        },
    }
}

/// What should happen to a save that only the server has.
pub open spec fn server_op(s: Held) -> Op {
    Op {
        action: "download"@,
        rom_id: s.rom_id,
        save_id: Some(s.id),
        file_name: Some(s.file_name),
        slot: s.slot,
        emulator: s.emulator,
        reason: "this device does not have this save"@,
        server_content_hash: s.content_hash,
        server_updated_at: s.updated_at,
    }
}

/// What should happen to every save: each of the client's, in its order, and
/// then each that only the server has.
pub open spec fn planned(
    device: Seq<char>,
    client: Seq<ClientSaveState>,
    server: Seq<Held>,
    seen: Map<(Seq<char>, i64, Seq<char>), String>,
) -> Seq<Op> {
    client.map_values(
        |c: ClientSaveState|
            client_op(
                c,
                server_has(server, c.rom_id, c.file_name@),
                agreed(seen, device, c.rom_id, c.file_name@),
            ),
    ) + server.filter(|s: Held| !client_has(client, s.rom_id, s.file_name)).map_values(
        |s: Held| server_op(s),
    )
}

/// How many of some operations are an action.
pub open spec fn count_of(os: Seq<Op>, action: Seq<char>) -> int
    decreases os.len(),
{
    if os.len() == 0 {
        0
    } else {
        count_of(os.drop_last(), action) + (if os.last().action == action {
            1int
        } else {
            0int
        })
    }
}

fn same_hash(a: &Option<String>, b: &str) -> (r: bool)
    ensures
        r == (text::opt(*a) == Some(b@)),
{
    match a {
        Some(a) => text::same(a, b),
        None => false,
    }
}

/// What to do about a save that both sides have, and why.
pub fn decide(client: &str, server: &Option<String>, last: Option<&str>) -> (r: (
    &'static str,
    &'static str,
))
    ensures
        (r.0@, r.1@) == verdict(client@, text::opt(*server), text::opt_str(last)),
{
    if same_hash(server, client) {
        return ("no_op", "both sides hold the same bytes");
    }
    match last {
        Some(h) => {
            if same_hash(server, h) {
                ("upload", "changed here since this device last agreed with the server")
            } else if text::same(h, client) {
                ("download", "changed on the server since this device last agreed")
            } else {
                ("conflict", "both copies changed since they last agreed; pick one")
            }
        },
        None => ("conflict", "both copies changed since they last agreed; pick one"),
    }
}

fn find_server(server: &Vec<ServerSave>, rom_id: i64, file: &str) -> (r: Option<usize>)
    ensures
        match r {
            Some(i) => i < server@.len() && server_has(held(server@), rom_id, file@) == Some(
                server@[i as int]@,
            ),
            None => server_has(held(server@), rom_id, file@) is None,
        },
{
    let ghost all = held(server@);
    let mut n: usize = server.len();
    assert(all.take(n as int) =~= all);
    while n > 0
        invariant
            n <= server@.len(),
            all == held(server@),
            server_has(all, rom_id, file@) == server_has(all.take(n as int), rom_id, file@),
        decreases n,
    {
        assert(all.take(n as int).last() == server@[n - 1]@);
        assert(all.take(n as int).drop_last() =~= all.take(n - 1));
        let s = &server[n - 1];
        if s.rom_id == rom_id && text::same(&s.file_name, file) {
            return Some(n - 1);
        }
        n -= 1;
    }
    None
}

fn has_client(client: &Vec<ClientSaveState>, rom_id: i64, file: &str) -> (r: bool)
    ensures
        r == client_has(client@, rom_id, file@),
{
    let mut i: usize = 0;
    while i < client.len()
        invariant
            i <= client@.len(),
            forall|j: int|
                0 <= j < i ==> !((#[trigger] client@[j]).rom_id == rom_id && client@[j].file_name@ == file@),
        decreases client@.len() - i,
    {
        if client[i].rom_id == rom_id && text::same(&client[i].file_name, file) {
            return true;
        }
        i += 1;
    }
    false
}

fn copy_option(s: &Option<String>) -> (r: Option<String>)
    ensures
        text::opt(r) == text::opt(*s),
{
    match s {
        Some(s) => Some(s.clone()),
        None => None,
    }
}

fn count(os: &Vec<SyncOperation>, action: &str) -> (r: i64)
    requires
        os@.len() <= i64::MAX,
    ensures
        r == count_of(ops(os@), action@),
{
    let ghost all = ops(os@);
    let mut n: i64 = 0;
    let mut i: usize = 0;
    while i < os.len()
        invariant
            i <= os@.len() <= i64::MAX,
            0 <= n <= i,
            all == ops(os@),
            n == count_of(all.take(i as int), action@),
        decreases os@.len() - i,
    {
        assert(all.take(i + 1).drop_last() =~= all.take(i as int));
        if text::same(&os[i].action, action) {
            n += 1;
        }
        i += 1;
    }
    assert(all.take(os@.len() as int) =~= all);
    n
}

/// Decides what should happen to every save, given both sides and what this
/// device last agreed on.
pub fn plan(
    device: &str,
    client: &Vec<ClientSaveState>,
    server: &Vec<ServerSave>,
    seen: &Seen,
) -> (r: SyncPlan)
    requires
        client@.len() + server@.len() <= i64::MAX,
    ensures
        r.session_id is None,
        ops(r.operations@) == planned(device@, client@, held(server@), seen@),
        r.total_upload == count_of(ops(r.operations@), "upload"@),
        r.total_download == count_of(ops(r.operations@), "download"@),
        r.total_conflict == count_of(ops(r.operations@), "conflict"@),
        r.total_no_op == count_of(ops(r.operations@), "no_op"@),
{
    let ghost all = held(server@);
    let ghost f = |c: ClientSaveState|
        client_op(
            c,
            server_has(all, c.rom_id, c.file_name@),
            agreed(seen@, device@, c.rom_id, c.file_name@),
        );
    let ghost first = client@.map_values(f);
    let mut out: Vec<SyncOperation> = Vec::new();
    let mut i: usize = 0;
    assert(ops(out@) =~= first.take(0));
    while i < client.len()
        invariant
            i <= client@.len(),
            all == held(server@),
            f == (|c: ClientSaveState|
                client_op(
                    c,
                    server_has(all, c.rom_id, c.file_name@),
                    agreed(seen@, device@, c.rom_id, c.file_name@),
                )),
            first == client@.map_values(f),
            ops(out@) == first.take(i as int),
            out@.len() == i,
        decreases client@.len() - i,
    {
        let c = &client[i];
        let ghost before = ops(out@);
        let k = key(device, c.rom_id, &c.file_name);
        let last: Option<&str> = match seen.get(&k) {
            Some(h) => Some(h.as_str()),
            None => None,
        };
        assert(text::opt_str(last) == agreed(seen@, device@, c.rom_id, c.file_name@));
        let op = match find_server(server, c.rom_id, &c.file_name) {
            None => SyncOperation {
                action: text::owned("upload"),
                rom_id: c.rom_id,
                save_id: None,
                file_name: Some(c.file_name.clone()),
                slot: copy_option(&c.slot),
                emulator: copy_option(&c.emulator),
                reason: text::owned("the server does not have this save"),
                server_content_hash: None,
                server_updated_at: None,
            },
            Some(j) => {
                let s = &server[j];
                let (action, reason) = decide(&c.content_hash, &s.content_hash, last);
                SyncOperation {
                    action: text::owned(action),
                    rom_id: c.rom_id,
                    save_id: Some(s.id),
                    file_name: Some(c.file_name.clone()),
                    slot: copy_option(&c.slot),
                    emulator: copy_option(&c.emulator),
                    reason: text::owned(reason),
                    server_content_hash: copy_option(&s.content_hash),
                    server_updated_at: copy_option(&s.updated_at),
                }
            },
        };
        assert(op@ == f(client@[i as int]));
        out.push(op);
        assert(ops(out@) =~= before.push(op@));
        assert(first.take(i + 1) =~= before.push(op@));
        i += 1;
    }
    assert(first.take(client@.len() as int) =~= first);
    let ghost g = |s: Held| !client_has(client@, s.rom_id, s.file_name);
    let ghost h = |s: Held| server_op(s);
    let mut k: usize = 0;
    proof {
        reveal(Seq::filter);
        assert(all.take(0).filter(g) =~= Seq::empty());
        assert(ops(out@) =~= first + all.take(0).filter(g).map_values(h));
    }
    while k < server.len()
        invariant
            k <= server@.len(),
            all == held(server@),
            g == (|s: Held| !client_has(client@, s.rom_id, s.file_name)),
            h == (|s: Held| server_op(s)),
            ops(out@) == first + all.take(k as int).filter(g).map_values(h),
            out@.len() <= client@.len() + k,
        decreases server@.len() - k,
    {
        let s = &server[k];
        let ghost before = ops(out@);
        let ghost picked = all.take(k as int).filter(g);
        proof {
            assert(all[k as int] == s@);
            assert(all.take(k + 1) =~= all.take(k as int).push(s@));
            all.take(k as int).lemma_filter_push(s@, g);
        }
        if !has_client(client, s.rom_id, &s.file_name) {
            let op = SyncOperation {
                action: text::owned("download"),
                rom_id: s.rom_id,
                save_id: Some(s.id),
                file_name: Some(s.file_name.clone()),
                slot: copy_option(&s.slot),
                emulator: copy_option(&s.emulator),
                reason: text::owned("this device does not have this save"),
                server_content_hash: copy_option(&s.content_hash),
                server_updated_at: copy_option(&s.updated_at),
            };
            assert(op@ == server_op(s@));
            out.push(op);
            assert(ops(out@) =~= before.push(op@));
            assert(picked.push(s@).map_values(h) =~= picked.map_values(h).push(op@));
            assert(before.push(op@) =~= first + picked.map_values(h).push(op@));
        }
        k += 1;
    }
    assert(all.take(server@.len() as int) =~= all);
    let total_upload: i64 = count(&out, "upload");
    let total_download: i64 = count(&out, "download");
    let total_conflict: i64 = count(&out, "conflict");
    let total_no_op: i64 = count(&out, "no_op");
    SyncPlan {
        session_id: None,
        operations: out,
        total_upload,
        total_download,
        total_conflict,
        total_no_op,
    }
}

/// A copy is only ever written over without asking where the other side is
/// known not to have changed: an upload over a copy the device last agreed on,
/// a download over one that is still what the device last agreed on.
pub proof fn law_nothing_is_overwritten_unseen(c: ClientSaveState, s: Held, last: Option<Seq<char>>)
    ensures
        ({
            let op = client_op(c, Some(s), last);
            &&& op.action == "upload"@ ==> last is Some && last == s.content_hash
            &&& op.action == "download"@ ==> last == Some(c.content_hash@)
            &&& op.action == "no_op"@ <==> s.content_hash == Some(c.content_hash@)
            &&& last is None && s.content_hash != Some(c.content_hash@) ==> op.action == "conflict"@
        }),
{
    reveal_strlit("upload");
    reveal_strlit("download");
    reveal_strlit("no_op");
    reveal_strlit("conflict");
    assert("upload"@.len() == 6);
    assert("download"@.len() == 8);
    assert("no_op"@.len() == 5);
    assert("conflict"@.len() == 8);
    assert("conflict"@[0] == 'c');
    assert("download"@[0] == 'd');
}

/// Every operation of a plan is of one of the four kinds, so the totals of a
/// plan add up to it.
pub proof fn law_totals_add_up(
    device: Seq<char>,
    client: Seq<ClientSaveState>,
    server: Seq<Held>,
    seen: Map<(Seq<char>, i64, Seq<char>), String>,
)
    ensures
        ({
            let os = planned(device, client, server, seen);
            count_of(os, "upload"@) + count_of(os, "download"@) + count_of(os, "conflict"@) + count_of(
                os,
                "no_op"@,
            ) == os.len()
        }),
{
    let os = planned(device, client, server, seen);
    assert forall|i: int| 0 <= i < os.len() implies is_action((#[trigger] os[i]).action) by {
        let f = |c: ClientSaveState|
            client_op(
                c,
                server_has(server, c.rom_id, c.file_name@),
                agreed(seen, device, c.rom_id, c.file_name@),
            );
        if i < client.len() {
            assert(os[i] == f(client[i]));
        } else {
            let g = |s: Held| !client_has(client, s.rom_id, s.file_name);
            let h = |s: Held| server_op(s);
            assert(os[i] == h(server.filter(g)[i - client.len()]));
        }
    }
    lemma_counts(os);
}

spec fn is_action(a: Seq<char>) -> bool {
    a == "upload"@ || a == "download"@ || a == "conflict"@ || a == "no_op"@
}

proof fn lemma_counts(os: Seq<Op>)
    requires
        forall|i: int| 0 <= i < os.len() ==> is_action((#[trigger] os[i]).action),
    ensures
        count_of(os, "upload"@) + count_of(os, "download"@) + count_of(os, "conflict"@) + count_of(
            os,
            "no_op"@,
        ) == os.len(),
    decreases os.len(),
{
    reveal_strlit("upload");
    reveal_strlit("download");
    reveal_strlit("no_op");
    reveal_strlit("conflict");
    assert("conflict"@[0] == 'c' && "download"@[0] == 'd');
    assert("upload"@.len() == 6 && "no_op"@.len() == 5 && "download"@.len() == 8);
    if os.len() > 0 {
        let front = os.drop_last();
        assert forall|i: int| 0 <= i < front.len() implies is_action((#[trigger] front[i]).action) by {
            assert(is_action(os[i].action));
        }
        lemma_counts(front);
        assert(is_action(os[os.len() - 1].action));
    }
}

} // verus!
