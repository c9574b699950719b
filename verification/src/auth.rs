//! Who is asking, and what they are allowed to do.
//!
//! * The owner holds the token. Everything.
//! * Everyone else has a username and a password. They can read the library
//!   and sync their own saves; they cannot change what the next person sees.
//!
//! With nothing configured, nothing is checked.

use vstd::prelude::*;
use crate::crypto;
use crate::failure::Failure;
use crate::number;
use crate::table::Table;
use crate::text;

verus! {

/// The cost of a new hash. It is recorded in the hash, so it can be raised
/// without invalidating what exists.
pub const ROUNDS: u32 = 600000;

/// How many bytes of salt a new hash has.
pub const SALT_LEN: usize = 16;

/// How many bytes a key has.
pub const KEY_LEN: usize = 32;

/// The name of the session cookie.
pub const COOKIE: &'static str = "moose_session";

/// The name the shared account signs in under.
pub const GUEST: &'static str = "guest";

/// Who may sign in.
#[derive(Debug)]
pub struct AuthConfig {
    /// The owner's token. Full access.
    pub token: Option<String>,
    /// The others.
    pub users: Vec<User>,
    /// Whether a shared account with no password is offered. Off unless asked
    /// for: it means that anyone who can reach the port can read the library.
    pub guest: bool,
}

/// One of the others.
#[derive(Debug)]
pub struct User {
    pub name: String,
    /// `pbkdf2-sha256$<rounds>$<salt>$<key>`, the last two in Base64.
    pub password: String,
}

impl Default for AuthConfig {
    fn default() -> (r: Self)
        ensures
            r.token is None,
            r.users@.len() == 0,
            !r.guest,
    {
        AuthConfig { token: None, users: Vec::new(), guest: false }
    }
}

/// The configured token; an empty one is none.
pub open spec fn token_of(cfg: AuthConfig) -> Seq<char> {
    match cfg.token {
        Some(t) => t@,
        None => Seq::empty(),
    }
}

/// Whether nothing is configured, so that nothing is checked.
pub open spec fn is_open(cfg: AuthConfig) -> bool {
    token_of(cfg).len() == 0 && cfg.users@.len() == 0 && !cfg.guest
}

impl AuthConfig {
    fn has_token(&self) -> (r: bool)
        ensures
            r == (token_of(*self).len() > 0),
    {
        match &self.token {
            Some(t) => !text::is_empty(t),
            None => false,
        }
    }

    /// True when nothing is configured, so nothing is checked.
    pub fn open(&self) -> (r: bool)
        ensures
            r == is_open(*self),
    {
        !self.has_token() && self.users.len() == 0 && !self.guest
    }

    /// What is configured, in words.
    pub fn describe(&self) -> (r: String)
        ensures
            r@ == (if is_open(*self) {
                "open -- no token and no users configured"@
            } else {
                (if token_of(*self).len() > 0 {
                    "token"@
                } else {
                    "no token"@
                }) + ", "@ + number::decimal(self.users@.len()) + " user(s)"@ + (if self.guest {
                    ", shared guest account on"@
                } else {
                    ""@
                })
            }),
    {
        if self.open() {
            return text::owned("open -- no token and no users configured");
        }
        let mut s = if self.has_token() {
            text::owned("token")
        } else {
            text::owned("no token")
        };
        s.append(", ");
        s.append(&number::decimal_of(self.users.len() as u128));
        s.append(" user(s)");
        if self.guest {
            s.append(", shared guest account on");
        } else {
            s.append("");
        }
        s
    }
}

/// Who is asking.
#[derive(Debug, Clone, PartialEq, Eq)]
pub enum Identity {
    /// The token holder, or anyone at all when nothing is checked.
    Owner,
    /// A named user, by password.
    User(String),
}

/// Who is asking, as a value.
pub enum Who {
    Owner,
    User(Seq<char>),
}

impl View for Identity {
    type V = Who;

    open spec fn view(&self) -> Who {
        match self {
            Identity::Owner => Who::Owner,
            Identity::User(n) => Who::User(n@),
        }
    }
}

/// Who an optional identity is.
pub open spec fn who(i: Option<Identity>) -> Option<Who> {
    match i {
        Some(i) => Some(i@),
        None => None,
    }
}

impl Identity {
    /// Whether it is the owner.
    pub fn is_owner(&self) -> (r: bool)
        ensures
            r == (self@ == Who::Owner),
    {
        match self {
            Identity::Owner => true,
            Identity::User(_) => false,
        }
    }

    /// What they are called.
    pub fn name(&self) -> (r: &str)
        ensures
            r@ == match self@ {
                Who::Owner => "owner"@,
                Who::User(n) => n,
            },
    {
        match self {
            Identity::Owner => "owner",
            Identity::User(n) => n,
        }
    }

    /// The same identity again.
    pub fn copy(&self) -> (r: Identity)
        ensures
            r@ == self@,
    {
        match self {
            Identity::Owner => Identity::Owner,
            Identity::User(n) => Identity::User(n.clone()),
        }
    }
}

// ---------------------------------------------------------------------------
// Passwords
// ---------------------------------------------------------------------------

/// A stored hash: its scheme, its rounds, its salt and its key.
pub open spec fn hash_text(rounds: nat, salt: Seq<char>, key: Seq<char>) -> Seq<char> {
    "pbkdf2-sha256$"@ + number::decimal(rounds) + "$"@ + salt + "$"@ + key
}

/// The rounds, and the salt and the key as they are written, of a stored hash
/// that is one.
pub open spec fn hash_parts(stored: Seq<char>) -> Option<(u32, Seq<char>, Seq<char>)> {
    let p = text::split(stored, '$');
    if p.len() == 4 && p[0] == "pbkdf2-sha256"@ {
        match number::unsigned(p[1]) {
            Some(n) => if 0 < n <= u32::MAX {
                Some((n as u32, p[2], p[3]))
            } else {
                None
            },
            None => None,
        }
    } else {
        None
    }
}

/// Whether a password is the one a hash was stored for. A hash that is not one
/// is nobody's: getting that backwards turns a typo into an open door.
pub open spec fn hash_matches(stored: Seq<char>, plain: Seq<char>) -> bool {
    match hash_parts(stored) {
        None => false,
        Some((rounds, salt, key)) => match (crypto::base64_bytes(salt), crypto::base64_bytes(key)) {
            (Some(salt), Some(key)) => key.len() == KEY_LEN && crypto::pbkdf2_of(
                vstd::utf8::encode_utf8(plain),
                salt,
                rounds,
            ) == key,
            _ => false,
        },
    }
}

/// The rounds, and the salt and the key as they are written, of a stored hash
/// that is one.
pub fn read_hash(stored: &str) -> (r: Option<(u32, String, String)>)
    ensures
        match r {
            Some((n, s, k)) => hash_parts(stored@) == Some((n, s@, k@)),
            None => hash_parts(stored@) is None,
        },
{
    let p = text::pieces(stored, '$');
    let ghost all = text::texts(p@);
    assert(all.len() == p@.len());
    if p.len() != 4 {
        return None;
    }
    assert(all[0] == p@[0]@ && all[1] == p@[1]@ && all[2] == p@[2]@ && all[3] == p@[3]@);
    if !text::same(&p[0], "pbkdf2-sha256") {
        return None;
    }
    match number::parse_unsigned(&p[1], 0xffff_ffff) {
        Some(n) => if n > 0 {
            Some((n as u32, p[2].clone(), p[3].clone()))
        } else {
            None
        },
        None => None,
    }
}

/// The key derived from a password.
fn derive(plain: &str, salt: &[u8], rounds: u32) -> (r: Vec<u8>)
    ensures
        r@ == crypto::pbkdf2_of(vstd::utf8::encode_utf8(plain@), salt@, rounds),
        r@.len() == KEY_LEN,
{
    crypto::pbkdf2(&text::encoded(plain), salt, rounds)
}

/// Checks a password against a stored hash.
pub fn verify_password(stored: &str, plain: &str) -> (r: bool)
    ensures
        r == hash_matches(stored@, plain@),
{
    match read_hash(stored) {
        None => false,
        Some((rounds, salt, key)) => match (crypto::base64_decode(&salt), crypto::base64_decode(&key)) {
            (Some(salt), Some(key)) => {
                // The key length is part of the check: a truncated hash must
                // not match on its prefix.
                if key.len() != KEY_LEN {
                    return false;
                }
                crypto::same_secret(&derive(plain, &salt, rounds), &key)
            },
            _ => false,
        },
    }
}

/// The hash of a password with a given salt.
///
/// What it gives is a hash that the password matches.
pub fn hash_with_salt(plain: &str, salt: &[u8]) -> (r: String)
    ensures
        r@ == hash_text(
            ROUNDS as nat,
            crypto::base64_text(salt@),
            crypto::base64_text(crypto::pbkdf2_of(vstd::utf8::encode_utf8(plain@), salt@, ROUNDS)),
        ),
        hash_matches(r@, plain@),
{
    let key = derive(plain, salt, ROUNDS);
    let s = crypto::base64_encode(salt);
    let k = crypto::base64_encode(&key);
    let mut out = text::owned("pbkdf2-sha256$");
    out.append(&number::decimal_of(ROUNDS as u128));
    out.append("$");
    out.append(&s);
    out.append("$");
    out.append(&k);
    proof {
        lemma_hash_parts(ROUNDS, s@, k@);
    }
    out
}

/// A hash that was put together comes apart as it was.
proof fn lemma_hash_parts(rounds: u32, salt: Seq<char>, key: Seq<char>)
    requires
        rounds > 0,
        forall|i: int| 0 <= i < salt.len() ==> crypto::is_base64(#[trigger] salt[i]),
        forall|i: int| 0 <= i < key.len() ==> crypto::is_base64(#[trigger] key[i]),
    ensures
        hash_parts(hash_text(rounds as nat, salt, key)) == Some((rounds, salt, key)),
{
    reveal_strlit("pbkdf2-sha256$");
    reveal_strlit("pbkdf2-sha256");
    reveal_strlit("$");
    number::lemma_decimal_reads_back(rounds as nat);
    let n = number::decimal(rounds as nat);
    let scheme = "pbkdf2-sha256"@;
    let ps = seq![scheme, n, salt, key];
    let t = hash_text(rounds as nat, salt, key);
    assert forall|k: int, i: int| 0 <= k < ps.len() && 0 <= i < ps[k].len() implies #[trigger] ps[k][i]
        != '$' by {
        if k == 1 {
            assert(number::digit_value(n[i]) is Some);
        } else if k == 2 {
            assert(crypto::is_base64(salt[i]));
        } else if k == 3 {
            assert(crypto::is_base64(key[i]));
        }
    }
    crate::lines::lemma_split_join(ps, '$');
    reveal_with_fuel(text::join, 4);
    assert(ps.drop_last() =~= seq![scheme, n, salt]);
    assert(ps.drop_last().drop_last() =~= seq![scheme, n]);
    assert(ps.drop_last().drop_last().drop_last() =~= seq![scheme]);
    assert(text::join(ps, seq!['$']) =~= t);
}

/// Hashes a password, with a salt of chance.
///
/// Where there is no chance to be had there is no hash.
pub fn hash_password(plain: &str) -> (r: Result<String, Failure>)
    ensures
        match r {
            Ok(h) => hash_matches(h@, plain@) && exists|salt: Seq<u8>|
                salt.len() == SALT_LEN && h@ == hash_text(
                    ROUNDS as nat,
                    #[trigger] crypto::base64_text(salt),
                    crypto::base64_text(
                        crypto::pbkdf2_of(vstd::utf8::encode_utf8(plain@), salt, ROUNDS),
                    ),
                ),
            Err(e) => e@ == seq!["the OS random source"@],
        },
{
    match crypto::random_bytes(SALT_LEN) {
        Some(salt) => {
            let h = hash_with_salt(plain, &salt);
            assert(h@ == hash_text(
                ROUNDS as nat,
                crypto::base64_text(salt@),
                crypto::base64_text(
                    crypto::pbkdf2_of(vstd::utf8::encode_utf8(plain@), salt@, ROUNDS),
                ),
            ));
            Ok(h)
        },
        None => Err(Failure::new("the OS random source")),
    }
}

// ---------------------------------------------------------------------------
// Headers
// ---------------------------------------------------------------------------

/// Whether one of some users has a name and a password.
pub open spec fn knows(users: Seq<User>, name: Seq<char>, pass: Seq<char>) -> bool {
    exists|i: int|
        0 <= i < users.len() && (#[trigger] users[i]).name@ == name && hash_matches(
            users[i].password@,
            pass,
        )
}

/// Who a `name:password` is.
pub open spec fn user_in(cfg: AuthConfig, t: Seq<char>) -> Option<Who> {
    match text::cut(t, ':') {
        Some((name, pass)) => if knows(cfg.users@, name, pass) {
            Some(Who::User(name))
        } else {
            None
        },
        None => None,
    }
}

/// Who the bytes of a `name:password` are.
pub open spec fn user_of_bytes(cfg: AuthConfig, raw: Seq<u8>) -> Option<Who> {
    if vstd::utf8::valid_utf8(raw) {
        user_in(cfg, vstd::utf8::decode_utf8(raw))
    } else {
        None
    }
}

/// Who an `Authorization` header is.
///
/// An empty configured token is never a match: otherwise `Bearer ` with nothing
/// after it would be the owner.
pub open spec fn identified(cfg: AuthConfig, header: Option<Seq<char>>) -> Option<Who> {
    match header {
        None => None,
        Some(h) => match text::after(h, "Bearer "@) {
            Some(tok) => if token_of(cfg).len() > 0 && text::trim(tok) == token_of(cfg) {
                Some(Who::Owner)
            } else {
                None
            },
            None => match text::after(h, "Basic "@) {
                Some(rest) => match crypto::base64_bytes(text::trim(rest)) {
                    Some(raw) => user_of_bytes(cfg, raw),
                    None => None,
                },
                None => None,
            },
        },
    }
}

/// Who a `name:password` is.
///
/// Every configured user is checked even after a match, so that the time taken
/// does not say which name exists.
pub fn from_credentials(cfg: &AuthConfig, t: &str) -> (r: Option<Identity>)
    ensures
        who(r) == user_in(*cfg, t@),
{
    match text::split_once(t, ':') {
        None => None,
        Some((name, pass)) => {
            let mut found: bool = false;
            let mut i: usize = 0;
            while i < cfg.users.len()
                invariant
                    i <= cfg.users@.len(),
                    found == knows(cfg.users@.take(i as int), name@, pass@),
                decreases cfg.users@.len() - i,
            {
                let u = &cfg.users[i];
                let ghost some = cfg.users@.take(i as int);
                let ghost more = cfg.users@.take(i + 1);
                let same = text::same(&u.name, &name) && verify_password(&u.password, &pass);
                proof {
                    assert(more[i as int] == cfg.users@[i as int]);
                    if found {
                        let k = choose|k: int|
                            0 <= k < some.len() && (#[trigger] some[k]).name@ == name@ && hash_matches(
                                some[k].password@,
                                pass@,
                            );
                        assert(more[k] == some[k]);
                    }
                    if knows(more, name@, pass@) && !same {
                        let k = choose|k: int|
                            0 <= k < more.len() && (#[trigger] more[k]).name@ == name@ && hash_matches(
                                more[k].password@,
                                pass@,
                            );
                        assert(k < i);
                        assert(some[k] == more[k]);
                    }
                }
                found = found || same;
                i += 1;
            }
            assert(cfg.users@.take(cfg.users@.len() as int) =~= cfg.users@);
            if found {
                Some(Identity::User(name))
            } else {
                None
            }
        },
    }
}

/// Who the bytes of a `name:password` are.
pub fn from_bytes(cfg: &AuthConfig, raw: Vec<u8>) -> (r: Option<Identity>)
    ensures
        who(r) == user_of_bytes(*cfg, raw@),
{
    match text::decoded(raw) {
        Ok(t) => from_credentials(cfg, &t),
        Err(_) => None,
    }
}

/// Whichever credential the header carries, if it is valid.
pub fn from_header(cfg: &AuthConfig, header: Option<&str>) -> (r: Option<Identity>)
    ensures
        who(r) == identified(*cfg, text::opt_str(header)),
{
    let h = match header {
        Some(h) => h,
        None => return None,
    };
    match text::strip_prefix(h, "Bearer ") {
        Some(tok) => {
            let tok = text::trimmed(&tok);
            match &cfg.token {
                None => None,
                Some(want) => {
                    if text::is_empty(want) {
                        return None;
                    }
                    let a = text::encoded(&tok);
                    let b = text::encoded(want);
                    proof {
                        vstd::utf8::encode_utf8_decode_utf8(tok@);
                        vstd::utf8::encode_utf8_decode_utf8(want@);
                    }
                    if crypto::same_secret(&a, &b) {
                        Some(Identity::Owner)
                    } else {
                        None
                    }
                },
            }
        },
        None => match text::strip_prefix(h, "Basic ") {
            Some(rest) => match crypto::base64_decode(&text::trimmed(&rest)) {
                Some(raw) => from_bytes(cfg, raw),
                None => None,
            },
            None => None,
        },
    }
}

// ---------------------------------------------------------------------------
// Sessions
// ---------------------------------------------------------------------------

/// Browser sessions: a random id in a cookie, the identity kept here. In
/// memory, so a restart signs everyone out.
pub struct Sessions {
    table: Table<String, Identity>,
}

impl View for Sessions {
    type V = Map<Seq<char>, Identity>;

    closed spec fn view(&self) -> Map<Seq<char>, Identity> {
        self.table@
    }
}

impl Default for Sessions {
    fn default() -> (r: Self)
        ensures
            r.wf(),
            r@ == Map::<Seq<char>, Identity>::empty(),
    {
        Sessions { table: Table::new() }
    }
}

impl Sessions {
    /// No session is there twice.
    pub closed spec fn each_once(self) -> bool {
        self.table.wf()
    }

    /// There are so many sessions and no more, and none is there twice.
    pub open spec fn wf(self) -> bool {
        self@.dom().finite() && self.each_once()
    }

    /// Opens a session under the id that some bytes make.
    pub fn open_as(&mut self, bytes: &[u8], who: Identity) -> (r: String)
        ensures
            r@ == crypto::base64_url_text(bytes@),
            final(self)@ == old(self)@.insert(r@, who),
            old(self).wf() ==> final(self).wf(),
            is_cookie_value(r@),
    {
        let id = crypto::base64_url_encode(bytes);
        let key = id.clone();
        self.table.insert(key, who);
        proof {
            lemma_url_text_is_cookie_value(id@);
        }
        id
    }

    /// Opens a session under an id of chance. Where there is no chance to be
    /// had, none is opened.
    pub fn open(&mut self, who: Identity) -> (r: Option<String>)
        ensures
            match r {
                Some(id) => final(self)@ == old(self)@.insert(id@, who) && is_cookie_value(id@) && exists|
                    b: Seq<u8>,
                |
                    b.len() == 24 && id@ == #[trigger] crypto::base64_url_text(b),
                None => final(self)@ == old(self)@,
            },
            old(self).wf() ==> final(self).wf(),
    {
        match crypto::random_bytes(24) {
            Some(bytes) => {
                let id = self.open_as(&bytes, who);
                assert(id@ == crypto::base64_url_text(bytes@));
                Some(id)
            },
            None => None,
        }
    }

    /// Whose session it is.
    pub fn get(&self, id: &str) -> (r: Option<Identity>)
        ensures
            who(r) == (if self@.contains_key(id@) {
                Some(self@[id@]@)
            } else {
                None
            }),
    {
        let key = text::owned(id);
        match self.table.get(&key) {
            Some(i) => Some(i.copy()),
            None => None,
        }
    }

    /// Closes a session.
    pub fn close(&mut self, id: &str)
        ensures
            final(self)@ == old(self)@.remove(id@),
            old(self).wf() ==> final(self).wf(),
            old(self).wf() && old(self)@.contains_key(id@) ==> final(self)@.dom().len() + 1 == old(
                self,
            )@.dom().len(),
            !old(self)@.contains_key(id@) ==> final(self)@ == old(self)@,
    {
        let key = text::owned(id);
        let ghost before = self@;
        self.table.remove(&key);
        assert(!before.contains_key(id@) ==> before.remove(id@) =~= before);
    }

    /// How many sessions are open.
    pub fn len(&self) -> (r: usize)
        requires
            self.wf(),
        ensures
            r == self@.dom().len(),
            self@.dom().finite(),
    {
        self.table.len()
    }
}

/// Whether a cookie can hold a value as it is.
pub open spec fn is_cookie_value(v: Seq<char>) -> bool {
    forall|i: int| 0 <= i < v.len() ==> v[i] != ';' && !text::space(#[trigger] v[i])
}

proof fn lemma_url_text_is_cookie_value(v: Seq<char>)
    requires
        forall|i: int| 0 <= i < v.len() ==> crypto::is_base64_url(#[trigger] v[i]),
    ensures
        is_cookie_value(v),
{
    assert forall|i: int| 0 <= i < v.len() implies v[i] != ';' && !text::space(#[trigger] v[i]) by {
        assert(crypto::is_base64_url(v[i]));
    }
}

/// The value of the session cookie among the cookies of a header.
pub open spec fn session_among(cs: Seq<Seq<char>>) -> Option<Seq<char>>
    decreases cs.len(),
{
    if cs.len() == 0 {
        None
    } else {
        match text::cut(text::trim(cs[0]), '=') {
            Some((k, v)) => if k == "moose_session"@ {
                Some(v)
            } else {
                session_among(cs.skip(1))
            },
            None => session_among(cs.skip(1)),
        }
    }
}

/// The session id in a `Cookie` header.
pub open spec fn session_in(header: Option<Seq<char>>) -> Option<Seq<char>> {
    match header {
        Some(h) => session_among(text::split(h, ';')),
        None => None,
    }
}

/// The session id out of a `Cookie` header.
pub fn session_from_cookies(header: Option<&str>) -> (r: Option<String>)
    ensures
        text::opt(r) == session_in(text::opt_str(header)),
{
    let h = match header {
        Some(h) => h,
        None => return None,
    };
    let cs = text::pieces(h, ';');
    let ghost all = text::texts(cs@);
    let mut i: usize = 0;
    assert(all.skip(0) =~= all);
    while i < cs.len()
        invariant
            i <= cs@.len(),
            all == text::texts(cs@),
            all == text::split(h@, ';'),
            header == Some(h),
            session_among(all) == session_among(all.skip(i as int)),
        decreases cs@.len() - i,
    {
        assert(all.skip(i as int)[0] == cs@[i as int]@);
        assert(all.skip(i as int).skip(1) =~= all.skip(i + 1));
        match text::split_once(&text::trimmed(&cs[i]), '=') {
            Some((k, v)) => {
                if text::same(&k, "moose_session") {
                    return Some(v);
                }
            },
            None => {},
        }
        i += 1;
    }
    None
}

// ---------------------------------------------------------------------------
// Commands
// ---------------------------------------------------------------------------

/// The commands that anyone who is let in may call.
///
/// Named one by one, rather than by a prefix: a prefix rule is one carelessly
/// named command away from handing a guest the settings. `set_grid` computes a
/// table from card geometry and stores nothing. Saves and states are shared in
/// the guest account: that is what the account is for.
pub open spec fn is_read_only(cmd: Seq<char>) -> bool {
    ||| cmd == "status"@
    ||| cmd == "versions"@
    ||| cmd == "platforms"@
    ||| cmd == "systems"@
    ||| cmd == "roms"@
    ||| cmd == "recent_games"@
    ||| cmd == "search"@
    ||| cmd == "collection_groups"@
    ||| cmd == "collections_in"@
    ||| cmd == "collection_roms"@
    ||| cmd == "play_history"@
    ||| cmd == "attract_pool"@
    ||| cmd == "rom_detail"@
    ||| cmd == "game_states"@
    ||| cmd == "confirm_delete_state"@
    ||| cmd == "game_cores"@
    ||| cmd == "game_lightgun"@
    ||| cmd == "game_displays"@
    ||| cmd == "game_video"@
    ||| cmd == "rom_covers"@
    ||| cmd == "config_fields"@
    ||| cmd == "config_findings"@
    ||| cmd == "config_patch"@
    ||| cmd == "list_art_options"@
    ||| cmd == "motion_options"@
    ||| cmd == "icon_styles"@
    ||| cmd == "icon_sets"@
    ||| cmd == "bios_status"@
    ||| cmd == "disk_usage"@
    ||| cmd == "check_update"@
    ||| cmd == "verify_achievements"@
    ||| cmd == "ui_bindings"@
    ||| cmd == "list_controls"@
    ||| cmd == "arrange_list"@
    ||| cmd == "picker_controls"@
    ||| cmd == "page_filter"@
    ||| cmd == "grid_uniform"@
    ||| cmd == "set_grid"@
    ||| cmd == "warm_media"@
    ||| cmd == "sync_saves_plan"@
    ||| cmd == "sync_saves"@
    ||| cmd == "resolve_save_conflict"@
}

/// Whether anyone who is let in may call a command.
pub fn read_only(cmd: &str) -> (r: bool)
    ensures
        r == is_read_only(cmd@),
{
    text::same(cmd, "status")
        || text::same(cmd, "versions")
        || text::same(cmd, "platforms")
        || text::same(cmd, "systems")
        || text::same(cmd, "roms")
        || text::same(cmd, "recent_games")
        || text::same(cmd, "search")
        || text::same(cmd, "collection_groups")
        || text::same(cmd, "collections_in")
        || text::same(cmd, "collection_roms")
        || text::same(cmd, "play_history")
        || text::same(cmd, "attract_pool")
        || text::same(cmd, "rom_detail")
        || text::same(cmd, "game_states")
        || text::same(cmd, "confirm_delete_state")
        || text::same(cmd, "game_cores")
        || text::same(cmd, "game_lightgun")
        || text::same(cmd, "game_displays")
        || text::same(cmd, "game_video")
        || text::same(cmd, "rom_covers")
        || text::same(cmd, "config_fields")
        || text::same(cmd, "config_findings")
        || text::same(cmd, "config_patch")
        || text::same(cmd, "list_art_options")
        || text::same(cmd, "motion_options")
        || text::same(cmd, "icon_styles")
        || text::same(cmd, "icon_sets")
        || text::same(cmd, "bios_status")
        || text::same(cmd, "disk_usage")
        || text::same(cmd, "check_update")
        || text::same(cmd, "verify_achievements")
        || text::same(cmd, "ui_bindings")
        || text::same(cmd, "list_controls")
        || text::same(cmd, "arrange_list")
        || text::same(cmd, "picker_controls")
        || text::same(cmd, "page_filter")
        || text::same(cmd, "grid_uniform")
        || text::same(cmd, "set_grid")
        || text::same(cmd, "warm_media")
        || text::same(cmd, "sync_saves_plan")
        || text::same(cmd, "sync_saves")
        || text::same(cmd, "resolve_save_conflict")
}

/// True when this command changes something that only the owner has any
/// business changing. One that is not known is the owner's.
pub fn owner_only(cmd: &str) -> (r: bool)
    ensures
        r == !is_read_only(cmd@),
{
    !read_only(cmd)
}

} // verus!
