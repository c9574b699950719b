//! Saves and save states on disk: `<root>/<rom id>/<file name>`.
//!
//! One directory per game rather than one flat pile, because two games can
//! both hold `battery.srm`. What is listed is made of what was found there, so
//! that a file edited by something else is still described as it is.

use vstd::prelude::*;
use crate::crypto;
use crate::number;
use crate::order;
use crate::paths;
use crate::saves;
use crate::saves::ServerSave;
use crate::text;

verus! {

// ---------------------------------------------------------------------------
// Ids
// ---------------------------------------------------------------------------

/// What identifies a save: its game and its file name.
pub open spec fn id_bytes(rom_id: i64, file_name: Seq<char>) -> Seq<u8> {
    vstd::bytes::spec_u64_to_le_bytes(rom_id as u64) + seq![0u8] + vstd::utf8::encode_utf8(file_name)
}

/// The id that a digest makes: its low 53 bits, and never zero.
///
/// One of the clients is a browser, which has one number type, a double: a
/// wider id comes back as a different number.
pub open spec fn id_in(digest: Seq<u8>) -> i64 {
    let x = vstd::bytes::spec_u64_from_le_bytes(digest.take(8)) & 0x1f_ffff_ffff_ffff;
    if x == 0 {
        1
    } else {
        x as i64
    }
}

/// A stable id for a save, made of what identifies it.
///
/// Made rather than given out, so that it survives whatever is rebuilt.
pub open spec fn id_of(rom_id: i64, file_name: Seq<char>) -> i64 {
    id_in(crypto::md5_of(id_bytes(rom_id, file_name)))
}

/// The id that a digest makes.
pub fn id_of_digest(digest: &[u8]) -> (r: i64)
    requires
        digest@.len() >= 8,
    ensures
        r == id_in(digest@),
        1 <= r <= 0x1f_ffff_ffff_ffff,
{
    let low = vstd::slice::slice_subrange(digest, 0, 8);
    assert(low@ =~= digest@.take(8));
    let x: u64 = vstd::bytes::u64_from_le_bytes(low);
    assert(x & 0x1f_ffff_ffff_ffff <= 0x1f_ffff_ffff_ffff) by (bit_vector);
    let y: u64 = x & 0x1f_ffff_ffff_ffff;
    if y == 0 {
        1
    } else {
        y as i64
    }
}

/// A stable id for a save: positive, and no wider than a browser can hold.
pub fn save_id(rom_id: i64, file_name: &str) -> (r: i64)
    ensures
        r == id_of(rom_id, file_name@),
        1 <= r <= 0x1f_ffff_ffff_ffff,
{
    let mut b = vstd::bytes::u64_to_le_bytes(#[verifier::truncate] (rom_id as u64));
    b.push(0);
    let mut name = text::encoded(file_name);
    b.append(&mut name);
    assert(b@ =~= id_bytes(rom_id, file_name@));
    id_of_digest(&crypto::md5(&b))
}

// ---------------------------------------------------------------------------
// Order
// ---------------------------------------------------------------------------

/// Something filed under a game and a file name.
pub trait Filed: Sized {
    /// The game.
    spec fn rom(&self) -> i64;

    /// The file name.
    spec fn file(&self) -> Seq<char>;

    /// The game.
    fn rom_of(&self) -> (r: i64)
        ensures
            r == self.rom(),
    ;

    /// The file name.
    fn file_of(&self) -> (r: &str)
        ensures
            r@ == self.file(),
    ;
}

/// Whether one thing does not come after another: by game, then by file name.
pub open spec fn not_after<T: Filed>(a: T, b: T) -> bool {
    a.rom() < b.rom() || (a.rom() == b.rom() && !order::less(b.file(), a.file()))
}

/// Things in order.
pub open spec fn in_order<T: Filed>(s: Seq<T>) -> bool {
    forall|i: int, j: int| 0 <= i < j < s.len() ==> not_after(#[trigger] s[i], #[trigger] s[j])
}

proof fn lemma_not_after_transitive<T: Filed>(a: T, b: T, c: T)
    requires
        not_after(a, b),
        not_after(b, c),
    ensures
        not_after(a, c),
{
    if a.rom() == b.rom() && b.rom() == c.rom() {
        if order::less(c.file(), a.file()) {
            order::lemma_total(a.file(), b.file());
            if order::less(a.file(), b.file()) {
                order::lemma_transitive(c.file(), a.file(), b.file());
            }
        }
    }
}

/// Whether a thing of one game and file name stands before one of another.
pub open spec fn stands_before(rom: i64, file: Seq<char>, other_rom: i64, other_file: Seq<char>) -> bool {
    rom < other_rom || (rom == other_rom && order::less(file, other_file))
}

/// Things in order with one more put in behind those it does not stand before.
pub open spec fn put_in<A>(s: Seq<A>, x: A, ahead: spec_fn(A, A) -> bool) -> Seq<A>
    decreases s.len(),
{
    if s.len() > 0 && ahead(x, s.last()) {
        put_in(s.drop_last(), x, ahead).push(s.last())
    } else {
        s.push(x)
    }
}

/// Things put in order one after the other, so that those that neither stands
/// before the other keep the order they had.
pub open spec fn put_in_order<A>(s: Seq<A>, ahead: spec_fn(A, A) -> bool) -> Seq<A>
    decreases s.len(),
{
    if s.len() == 0 {
        Seq::empty()
    } else {
        put_in(put_in_order(s.drop_last(), ahead), s.last(), ahead)
    }
}

/// A thing put in behind those it does not stand before, and before all others, is
/// where it belongs.
proof fn lemma_put_in<A>(s: Seq<A>, x: A, ahead: spec_fn(A, A) -> bool, r: int)
    requires
        0 <= r <= s.len(),
        forall|j: int| 0 <= j < r ==> !ahead(x, #[trigger] s[j]),
        forall|j: int| r <= j < s.len() ==> ahead(x, #[trigger] s[j]),
    ensures
        put_in(s, x, ahead) == s.insert(r, x),
    decreases s.len(),
{
    if r < s.len() {
        let front = s.drop_last();
        assert(ahead(x, s[s.len() - 1]));
        assert forall|j: int| 0 <= j < r implies !ahead(x, #[trigger] front[j]) by {
            assert(!ahead(x, s[j]));
        }
        assert forall|j: int| r <= j < front.len() implies ahead(x, #[trigger] front[j]) by {
            assert(ahead(x, s[j]));
        }
        lemma_put_in(front, x, ahead, r);
        assert(front.insert(r, x).push(s.last()) =~= s.insert(r, x));
    } else {
        if s.len() > 0 {
            assert(!ahead(x, s[s.len() - 1]));
        }
        assert(s.push(x) =~= s.insert(r, x));
    }
}

fn is_not_after<T: Filed>(a: &T, b: &T) -> (r: bool)
    ensures
        r == not_after(*a, *b),
{
    a.rom_of() < b.rom_of() || (a.rom_of() == b.rom_of() && !order::is_less(b.file_of(), a.file_of()))
}

/// Puts a thing where it belongs among things in order, after those that are
/// not after it. Says where that was.
pub(crate) fn file_in<T: Filed>(v: &mut Vec<T>, x: T) -> (r: usize)
    requires
        in_order(old(v)@),
    ensures
        in_order(final(v)@),
        r <= old(v)@.len(),
        final(v)@ == old(v)@.insert(r as int, x),
        forall|j: int|
            0 <= j < old(v)@.len() ==> (r <= j) == stands_before(
                x.rom(),
                x.file(),
                (#[trigger] old(v)@[j]).rom(),
                old(v)@[j].file(),
            ),
{
    let ghost before = v@;
    let mut i: usize = 0;
    while i < v.len() && is_not_after(&v[i], &x)
        invariant
            i <= v@.len(),
            v@ == before,
            forall|j: int| 0 <= j < i ==> not_after(#[trigger] before[j], x),
        decreases v@.len() - i,
    {
        i += 1;
    }
    v.insert(i, x);
    proof {
        let after = v@;
        assert forall|j: int| 0 <= j < before.len() implies (i <= j) == stands_before(
            x.rom(),
            x.file(),
            (#[trigger] before[j]).rom(),
            before[j].file(),
        ) by {
            if j < i {
                assert(not_after(before[j], x));
            } else if j > i {
                // What stands before one thing stands before those that are not
                // before that thing.
                assert(not_after(before[i as int], before[j]));
                if not_after(before[j], x) {
                    lemma_not_after_transitive(before[i as int], before[j], x);
                }
            }
        }
        assert forall|j: int| i <= j < before.len() implies not_after(x, #[trigger] before[j]) by {
            order::lemma_total(x.file(), before[i as int].file());
            if j > i {
                assert(not_after(before[i as int], before[j]));
                if x.rom() == before[i as int].rom() {
                    if order::less(before[i as int].file(), x.file()) {
                        order::lemma_irreflexive(x.file());
                        order::lemma_transitive(x.file(), before[i as int].file(), x.file());
                    }
                }
                lemma_not_after_transitive(x, before[i as int], before[j]);
            } else {
                if order::less(before[i as int].file(), x.file()) && order::less(
                    x.file(),
                    before[i as int].file(),
                ) {
                    order::lemma_irreflexive(x.file());
                    order::lemma_transitive(x.file(), before[i as int].file(), x.file());
                }
            }
        }
        assert forall|a: int, b: int| 0 <= a < b < after.len() implies not_after(
            #[trigger] after[a],
            #[trigger] after[b],
        ) by {
            if b < i {
                assert(not_after(before[a], before[b]));
            } else if b == i {
                assert(not_after(before[a], x));
            } else if a < i {
                assert(not_after(before[a], before[b - 1]));
            } else if a == i {
                assert(not_after(x, before[b - 1]));
            } else {
                assert(not_after(before[a - 1], before[b - 1]));
            }
        }
    }
    i
}

// ---------------------------------------------------------------------------
// Saves
// ---------------------------------------------------------------------------

/// A file that was found under a game.
#[derive(Debug)]
pub struct FoundSave {
    pub name: String,
    pub bytes: Vec<u8>,
    /// When it was last written, in seconds.
    pub modified: Option<u64>,
}

/// A directory that was found among the saves, by its name.
#[derive(Debug)]
pub struct FoundDir {
    pub name: String,
    pub files: Vec<FoundSave>,
}

/// Whether a save stands before another.
pub open spec fn save_ahead() -> spec_fn(saves::Held, saves::Held) -> bool {
    |a: saves::Held, b: saves::Held| stands_before(a.rom_id, a.file_name, b.rom_id, b.file_name)
}

/// The game that a directory is of: its name is a number, and not one of the
/// old ones. A folder still under an old id is one that could not be placed,
/// and offering it would put a stale save over a current one.
pub open spec fn dir_rom(name: Seq<char>, old_ids: Seq<i64>) -> Option<i64> {
    match number::signed(name) {
        Some(n) => if i64::MIN <= n <= i64::MAX && !old_ids.contains(n as i64) {
            Some(n as i64)
        } else {
            None
        },
        None => None,
    }
}

/// When something was last written, as text.
pub open spec fn stamp(modified: Option<u64>) -> Option<Seq<char>> {
    match modified {
        Some(s) => Some(number::decimal(s as nat)),
        None => None,
    }
}

/// What a file that was found is as a save.
pub open spec fn save_found(rom_id: i64, f: FoundSave) -> saves::Held {
    saves::Held {
        id: id_of(rom_id, f.name@),
        rom_id,
        file_name: f.name@,
        file_size_bytes: f.bytes@.len() as i64,
        content_hash: Some(crypto::hex_text(crypto::md5_of(f.bytes@))),
        slot: None,
        emulator: None,
        updated_at: stamp(f.modified),
    }
}

/// What a directory that was found holds.
pub open spec fn dir_saves(d: FoundDir, old_ids: Seq<i64>) -> Seq<saves::Held> {
    match dir_rom(d.name@, old_ids) {
        Some(rom_id) => d.files@.map_values(|f: FoundSave| save_found(rom_id, f)),
        None => Seq::empty(),
    }
}

/// What the directories that were found hold.
pub open spec fn all_saves(found: Seq<FoundDir>, old_ids: Seq<i64>) -> Seq<saves::Held>
    decreases found.len(),
{
    if found.len() == 0 {
        Seq::empty()
    } else {
        all_saves(found.drop_last(), old_ids) + dir_saves(found.last(), old_ids)
    }
}

impl Filed for ServerSave {
    open spec fn rom(&self) -> i64 {
        self.rom_id
    }

    open spec fn file(&self) -> Seq<char> {
        self.file_name@
    }

    fn rom_of(&self) -> (r: i64) {
        self.rom_id
    }

    fn file_of(&self) -> (r: &str) {
        &self.file_name
    }
}

pub(crate) fn holds_id(ids: &Vec<i64>, id: i64) -> (r: bool)
    ensures
        r == ids@.contains(id),
{
    let mut i: usize = 0;
    while i < ids.len()
        invariant
            i <= ids@.len(),
            forall|j: int| 0 <= j < i ==> ids@[j] != id,
        decreases ids@.len() - i,
    {
        if ids[i] == id {
            return true;
        }
        i += 1;
    }
    false
}

/// The game that a directory is of.
pub fn dir_rom_of(name: &str, old_ids: &Vec<i64>) -> (r: Option<i64>)
    ensures
        r == dir_rom(name@, old_ids@),
{
    match number::parse_i64(name) {
        Some(n) => if holds_id(old_ids, n) {
            None
        } else {
            Some(n)
        },
        None => None,
    }
}

fn stamp_of(modified: Option<u64>) -> (r: Option<String>)
    ensures
        text::opt(r) == stamp(modified),
{
    match modified {
        Some(s) => Some(number::decimal_of(s as u128)),
        None => None,
    }
}

/// The directory of a game below a root.
pub open spec fn game_dir(root: Seq<char>, rom_id: i64) -> Seq<char> {
    paths::joined(root, number::int_text(rom_id as int))
}

fn game_dir_of(root: &str, rom_id: i64) -> (r: String)
    ensures
        r@ == game_dir(root@, rom_id),
{
    paths::join(root, &number::text_of(rom_id))
}

/// Where a file of a game is below a root.
pub open spec fn file_path(root: Seq<char>, rom_id: i64, file: Seq<char>) -> Seq<char> {
    paths::joined(game_dir(root, rom_id), file)
}

/// Saves on disk.
pub struct SaveStore {
    pub root: String,
}

impl SaveStore {
    /// The saves below a root.
    pub fn new(root: &str) -> (r: SaveStore)
        ensures
            r.root@ == root@,
    {
        SaveStore { root: text::owned(root) }
    }

    /// Where the saves of a game are.
    pub fn dir(&self, rom_id: i64) -> (r: String)
        ensures
            r@ == game_dir(self.root@, rom_id),
    {
        game_dir_of(&self.root, rom_id)
    }

    /// Every save of the directories that were found, in order; those of one game
    /// and name in the order in which they were found.
    pub fn list(&self, found: &Vec<FoundDir>, old_ids: &Vec<i64>) -> (r: Vec<ServerSave>)
        ensures
            in_order(r@),
            saves::held(r@) == put_in_order(all_saves(found@, old_ids@), save_ahead()),
    {
        let mut out: Vec<ServerSave> = Vec::new();
        let mut i: usize = 0;
        assert(saves::held(out@) =~= all_saves(found@.take(0), old_ids@));
        while i < found.len()
            invariant
                i <= found@.len(),
                in_order(out@),
                saves::held(out@) == put_in_order(all_saves(found@.take(i as int), old_ids@), save_ahead()),
            decreases found@.len() - i,
        {
            let d = &found[i];
            let ghost before = all_saves(found@.take(i as int), old_ids@);
            let ghost here = dir_saves(found@[i as int], old_ids@);
            assert(found@.take(i + 1).drop_last() =~= found@.take(i as int));
            match dir_rom_of(&d.name, old_ids) {
                None => {
                    assert(before + here =~= before);
                },
                Some(rom_id) => {
                    let mut k: usize = 0;
                    assert(before + here.take(0) =~= before);
                    while k < d.files.len()
                        invariant
                            k <= d.files@.len(),
                            here == d.files@.map_values(|f: FoundSave| save_found(rom_id, f)),
                            in_order(out@),
                            saves::held(out@) == put_in_order(before + here.take(k as int), save_ahead()),
                        decreases d.files@.len() - k,
                    {
                        let f = &d.files[k];
                        let s = ServerSave {
                            id: save_id(rom_id, &f.name),
                            rom_id,
                            file_name: f.name.clone(),
                            file_size_bytes: #[verifier::truncate] (f.bytes.len() as i64),
                            content_hash: Some(crypto::md5_hex(&f.bytes)),
                            slot: None,
                            emulator: None,
                            updated_at: stamp_of(f.modified),
                        };
                        let ghost x = s@;
                        assert(x == save_found(rom_id, d.files@[k as int]));
                        assert(here[k as int] == x);
                        let ghost sofar = saves::held(out@);
                        let ghost were = out@;
                        let at = file_in(&mut out, s);
                        proof {
                            assert(saves::held(out@) =~= sofar.insert(at as int, x));
                            assert forall|j: int| 0 <= j < sofar.len() implies (at <= j) == save_ahead()(
                                x,
                                #[trigger] sofar[j],
                            ) by {
                                assert(sofar[j] == were[j]@);
                            }
                            lemma_put_in(sofar, x, save_ahead(), at as int);
                            let b = before + here.take(k as int);
                            assert(before + here.take(k + 1) =~= b.push(x));
                            assert(b.push(x).drop_last() =~= b);
                        }
                        k += 1;
                    }
                    assert(here.take(d.files@.len() as int) =~= here);
                },
            }
            i += 1;
        }
        assert(found@.take(found@.len() as int) =~= found@);
        out
    }

    /// Where a file of a game goes.
    pub fn path(&self, rom_id: i64, file_name: &str) -> (r: String)
        ensures
            r@ == file_path(self.root@, rom_id, file_name@),
    {
        paths::join(&self.dir(rom_id), file_name)
    }

    /// The one of some saves that was just written: the first of its name.
    pub fn written<'a>(&self, all: &'a Vec<ServerSave>, file_name: &str) -> (r: Option<&'a ServerSave>)
        ensures
            match r {
                Some(s) => exists|i: int|
                    0 <= i < all@.len() && *s == #[trigger] all@[i] && s.file_name@ == file_name@ && forall|
                        j: int,
                    |
                        0 <= j < i ==> (#[trigger] all@[j]).file_name@ != file_name@,
                None => forall|i: int| 0 <= i < all@.len() ==> (#[trigger] all@[i]).file_name@ != file_name@,
            },
    {
        let mut i: usize = 0;
        while i < all.len()
            invariant
                i <= all@.len(),
                forall|j: int| 0 <= j < i ==> (#[trigger] all@[j]).file_name@ != file_name@,
            decreases all@.len() - i,
        {
            if text::same(&all[i].file_name, file_name) {
                return Some(&all[i]);
            }
            i += 1;
        }
        None
    }

    /// Where the save of an id is, among those listed: the first of that id.
    ///
    /// By id rather than by name, because that is what a client holds.
    pub fn read(&self, all: &Vec<ServerSave>, id: i64) -> (r: Option<String>)
        ensures
            match r {
                Some(p) => exists|i: int|
                    0 <= i < all@.len() && (#[trigger] all@[i]).id == id && p@ == file_path(
                        self.root@,
                        all@[i].rom_id,
                        all@[i].file_name@,
                    ) && forall|j: int| 0 <= j < i ==> (#[trigger] all@[j]).id != id,
                None => forall|j: int| 0 <= j < all@.len() ==> (#[trigger] all@[j]).id != id,
            },
    {
        let mut i: usize = 0;
        while i < all.len()
            invariant
                i <= all@.len(),
                forall|j: int| 0 <= j < i ==> (#[trigger] all@[j]).id != id,
            decreases all@.len() - i,
        {
            if all[i].id == id {
                return Some(self.path(all[i].rom_id, &all[i].file_name));
            }
            i += 1;
        }
        None
    }
}

// ---------------------------------------------------------------------------
// States
// ---------------------------------------------------------------------------

/// A save state: a freeze-frame of the emulator. It belongs to one emulator, so
/// there is no merging to be done and no conflict to resolve.
#[derive(Debug)]
pub struct ServerState {
    pub id: i64,
    pub rom_id: i64,
    pub file_name: String,
    pub file_size_bytes: i64,
    pub emulator: Option<String>,
    pub updated_at: Option<String>,
}

/// A state, as a value.
pub struct HeldState {
    pub id: i64,
    pub rom_id: i64,
    pub file_name: Seq<char>,
    pub file_size_bytes: i64,
    pub emulator: Option<Seq<char>>,
    pub updated_at: Option<Seq<char>>,
}

impl View for ServerState {
    type V = HeldState;

    open spec fn view(&self) -> HeldState {
        HeldState {
            id: self.id,
            rom_id: self.rom_id,
            file_name: self.file_name@,
            file_size_bytes: self.file_size_bytes,
            emulator: text::opt(self.emulator),
            updated_at: text::opt(self.updated_at),
        }
    }
}

/// Whether a state stands before another.
pub open spec fn state_ahead() -> spec_fn(HeldState, HeldState) -> bool {
    |a: HeldState, b: HeldState| stands_before(a.rom_id, a.file_name, b.rom_id, b.file_name)
}

/// What some states are, as values.
pub open spec fn held_states(s: Seq<ServerState>) -> Seq<HeldState> {
    s.map_values(|x: ServerState| x@)
}

impl Filed for ServerState {
    open spec fn rom(&self) -> i64 {
        self.rom_id
    }

    open spec fn file(&self) -> Seq<char> {
        self.file_name@
    }

    fn rom_of(&self) -> (r: i64) {
        self.rom_id
    }

    fn file_of(&self) -> (r: &str) {
        &self.file_name
    }
}

/// A file that was found among the states of a game.
#[derive(Debug)]
pub struct FoundState {
    pub name: String,
    pub size: u64,
    /// When it was last written, in seconds.
    pub modified: Option<u64>,
    /// What the file beside it that names its emulator says.
    pub sidecar: Option<String>,
}

/// A directory that was found among the states, by its name.
#[derive(Debug)]
pub struct FoundStates {
    pub name: String,
    pub files: Vec<FoundState>,
}

/// Whether a file is one that names the emulator of a state, rather than a
/// state.
pub open spec fn is_sidecar(name: Seq<char>) -> bool {
    name.len() > 0 && name[0] == '.' && text::ends(name, ".emulator"@)
}

/// The emulator that the file beside a state names.
pub open spec fn emulator_in(sidecar: Option<Seq<char>>) -> Option<Seq<char>> {
    match sidecar {
        Some(s) => if text::trim(s).len() > 0 {
            Some(text::trim(s))
        } else {
            None
        },
        None => None,
    }
}

/// What a file that was found is as a state.
pub open spec fn state_found(rom_id: i64, f: FoundState) -> HeldState {
    HeldState {
        id: id_of(rom_id, f.name@),
        rom_id,
        file_name: f.name@,
        file_size_bytes: f.size as i64,
        emulator: emulator_in(text::opt(f.sidecar)),
        updated_at: stamp(f.modified),
    }
}

/// The states among some files that were found.
pub open spec fn states_in(rom_id: i64, files: Seq<FoundState>) -> Seq<HeldState>
    decreases files.len(),
{
    if files.len() == 0 {
        Seq::empty()
    } else {
        let rest = states_in(rom_id, files.drop_last());
        if is_sidecar(files.last().name@) {
            rest
        } else {
            rest.push(state_found(rom_id, files.last()))
        }
    }
}

/// What the directories that were found hold.
pub open spec fn all_states(found: Seq<FoundStates>, old_ids: Seq<i64>) -> Seq<HeldState>
    decreases found.len(),
{
    if found.len() == 0 {
        Seq::empty()
    } else {
        all_states(found.drop_last(), old_ids) + match dir_rom(found.last().name@, old_ids) {
            Some(rom_id) => states_in(rom_id, found.last().files@),
            None => Seq::empty(),
        }
    }
}

fn sidecar_named(name: &str) -> (r: bool)
    ensures
        r == is_sidecar(name@),
{
    let c = text::chars_of(name);
    c.len() > 0 && c[0] == '.' && text::ends_with(name, ".emulator")
}

fn emulator_of(sidecar: &Option<String>) -> (r: Option<String>)
    ensures
        text::opt(r) == emulator_in(text::opt(*sidecar)),
{
    match sidecar {
        Some(s) => {
            let e = text::trimmed(s);
            if text::is_empty(&e) {
                None
            } else {
                Some(e)
            }
        },
        None => None,
    }
}

/// States on disk, beside the saves.
pub struct StateStore {
    pub root: String,
}

impl StateStore {
    /// The states below a root.
    pub fn new(root: &str) -> (r: StateStore)
        ensures
            r.root@ == root@,
    {
        StateStore { root: text::owned(root) }
    }

    /// Where the states of a game are.
    pub fn dir(&self, rom_id: i64) -> (r: String)
        ensures
            r@ == game_dir(self.root@, rom_id),
    {
        game_dir_of(&self.root, rom_id)
    }

    /// Where the emulator of a state is recorded: in a file beside it rather
    /// than in its name, which is what a client matches on.
    pub fn emu_path(&self, rom_id: i64, file_name: &str) -> (r: String)
        ensures
            r@ == file_path(self.root@, rom_id, "."@ + file_name@ + ".emulator"@),
    {
        let mut name = text::owned(".");
        name.append(file_name);
        name.append(".emulator");
        paths::join(&self.dir(rom_id), &name)
    }

    /// Every state of the directories that were found, in order; those of one game
    /// and name in the order in which they were found.
    pub fn list(&self, found: &Vec<FoundStates>, old_ids: &Vec<i64>) -> (r: Vec<ServerState>)
        ensures
            in_order(r@),
            held_states(r@) == put_in_order(all_states(found@, old_ids@), state_ahead()),
    {
        let mut out: Vec<ServerState> = Vec::new();
        let mut i: usize = 0;
        assert(held_states(out@) =~= all_states(found@.take(0), old_ids@));
        while i < found.len()
            invariant
                i <= found@.len(),
                in_order(out@),
                held_states(out@) == put_in_order(
                    all_states(found@.take(i as int), old_ids@),
                    state_ahead(),
                ),
            decreases found@.len() - i,
        {
            let d = &found[i];
            let ghost before = all_states(found@.take(i as int), old_ids@);
            assert(found@.take(i + 1).drop_last() =~= found@.take(i as int));
            match dir_rom_of(&d.name, old_ids) {
                None => {
                    assert(before + Seq::<HeldState>::empty() =~= before);
                },
                Some(rom_id) => {
                    let mut k: usize = 0;
                    assert(before + states_in(rom_id, d.files@.take(0)) =~= before);
                    while k < d.files.len()
                        invariant
                            k <= d.files@.len(),
                            in_order(out@),
                            held_states(out@) == put_in_order(
                                before + states_in(rom_id, d.files@.take(k as int)),
                                state_ahead(),
                            ),
                        decreases d.files@.len() - k,
                    {
                        let f = &d.files[k];
                        let ghost rest = states_in(rom_id, d.files@.take(k as int));
                        assert(d.files@.take(k + 1).drop_last() =~= d.files@.take(k as int));
                        if !sidecar_named(&f.name) {
                            let s = ServerState {
                                id: save_id(rom_id, &f.name),
                                rom_id,
                                file_name: f.name.clone(),
                                file_size_bytes: #[verifier::truncate] (f.size as i64),
                                emulator: emulator_of(&f.sidecar),
                                updated_at: stamp_of(f.modified),
                            };
                            let ghost x = s@;
                            assert(x == state_found(rom_id, d.files@[k as int]));
                            let ghost sofar = held_states(out@);
                            let ghost were = out@;
                            let at = file_in(&mut out, s);
                            proof {
                                assert(held_states(out@) =~= sofar.insert(at as int, x));
                                assert forall|j: int| 0 <= j < sofar.len() implies (at <= j) == state_ahead()(
                                    x,
                                    #[trigger] sofar[j],
                                ) by {
                                    assert(sofar[j] == were[j]@);
                                }
                                lemma_put_in(sofar, x, state_ahead(), at as int);
                                let b = before + rest;
                                assert(before + rest.push(x) =~= b.push(x));
                                assert(b.push(x).drop_last() =~= b);
                            }
                        }
                        k += 1;
                    }
                    assert(d.files@.take(d.files@.len() as int) =~= d.files@);
                },
            }
            i += 1;
        }
        assert(found@.take(found@.len() as int) =~= found@);
        out
    }

    /// Where a state of a game goes.
    pub fn path(&self, rom_id: i64, file_name: &str) -> (r: String)
        ensures
            r@ == file_path(self.root@, rom_id, file_name@),
    {
        paths::join(&self.dir(rom_id), file_name)
    }

    /// What goes into the file beside a state that was uploaded; without an
    /// emulator that file goes, rather than leaving the previous uploader's
    /// name on somebody else's state.
    pub fn write(&self, emulator: Option<&str>) -> (r: Option<String>)
        ensures
            text::opt(r) == (match text::opt_str(emulator) {
                Some(e) => if e.len() > 0 {
                    Some(e)
                } else {
                    None
                },
                None => None,
            }),
    {
        match emulator {
            Some(e) => if text::is_empty(e) {
                None
            } else {
                Some(text::owned(e))
            },
            None => None,
        }
    }

    /// Where the state of an id is, among those listed: the first of that id.
    pub fn read(&self, all: &Vec<ServerState>, id: i64) -> (r: Option<String>)
        ensures
            match r {
                Some(p) => exists|i: int|
                    0 <= i < all@.len() && (#[trigger] all@[i]).id == id && p@ == file_path(
                        self.root@,
                        all@[i].rom_id,
                        all@[i].file_name@,
                    ) && forall|j: int| 0 <= j < i ==> (#[trigger] all@[j]).id != id,
                None => forall|j: int| 0 <= j < all@.len() ==> (#[trigger] all@[j]).id != id,
            },
    {
        let mut i: usize = 0;
        while i < all.len()
            invariant
                i <= all@.len(),
                forall|j: int| 0 <= j < i ==> (#[trigger] all@[j]).id != id,
            decreases all@.len() - i,
        {
            if all[i].id == id {
                return Some(self.path(all[i].rom_id, &all[i].file_name));
            }
            i += 1;
        }
        None
    }
}

/// The file that names the emulator of a state is never a state of its own.
pub proof fn law_a_sidecar_is_no_state(file_name: Seq<char>)
    ensures
        is_sidecar("."@ + file_name + ".emulator"@),
{
    reveal_strlit(".");
    let n = "."@ + file_name + ".emulator"@;
    assert(n.skip(n.len() - ".emulator"@.len()) =~= ".emulator"@);
}

/// What is stored is listed: a file in the directory of a game is among the saves,
/// as that game's, with the hash of its bytes.
pub proof fn law_what_is_stored_is_listed(found: Seq<FoundDir>, old_ids: Seq<i64>, d: int, i: int, rom_id: i64)
    requires
        0 <= d < found.len(),
        0 <= i < found[d].files@.len(),
        found[d].name@ == number::int_text(rom_id as int),
        !old_ids.contains(rom_id),
    ensures
        all_saves(found, old_ids).contains(save_found(rom_id, found[d].files@[i])),
    decreases found.len(),
{
    let all = all_saves(found, old_ids);
    let before = all_saves(found.drop_last(), old_ids);
    if d == found.len() - 1 {
        law_game_directories_read_back(rom_id, old_ids);
        assert(all[before.len() + i] == save_found(rom_id, found[d].files@[i]));
    } else {
        assert(found.drop_last()[d] == found[d]);
        law_what_is_stored_is_listed(found.drop_last(), old_ids, d, i, rom_id);
        let k = choose|k: int| 0 <= k < before.len() && before[k] == save_found(rom_id, found[d].files@[i]);
        assert(all[k] == before[k]);
    }
}

/// A directory named after a game is read as that game's, unless its id is an
/// old one; and a directory of an old id is never listed.
pub proof fn law_game_directories_read_back(rom_id: i64, old_ids: Seq<i64>)
    ensures
        dir_rom(number::int_text(rom_id as int), old_ids) == (if old_ids.contains(rom_id) {
            None
        } else {
            Some(rom_id)
        }),
{
    number::law_number_text_reads_back(rom_id as int);
}

} // verus!
