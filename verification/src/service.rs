//! Who may ask, and what the service answers.
//!
//! Each request is settled here: whether it is let in, what a sign-in gives, whether
//! an upload is taken, and what a device has agreed to.

use vstd::prelude::*;
use crate::auth;
use crate::auth::{AuthConfig, Identity, Sessions};
use crate::crypto;
use crate::failure::Failure;
use crate::legacy;
use crate::number;
use crate::paths;
use crate::save_store;
use crate::saves;
use crate::saves::{ClientSaveState, Seen, SeenKey, ServerSave, SyncPlan};
use crate::table;
use crate::table::{Key, Table};
use crate::text;

verus! {

// ---------------------------------------------------------------------------
// The door
// ---------------------------------------------------------------------------

/// What the whole service is protected by.
pub struct Guard {
    pub cfg: AuthConfig,
    pub sessions: Sessions,
}

impl Default for Guard {
    fn default() -> (r: Guard)
        ensures
            auth::is_open(r.cfg),
            r.sessions.wf(),
            r.sessions@ == Map::<Seq<char>, Identity>::empty(),
    {
        Guard { cfg: AuthConfig::default(), sessions: Sessions::default() }
    }
}

/// Whether a route answers before anybody has proved who they are.
pub open spec fn public_path(path: Seq<char>) -> bool {
    path == "/api/heartbeat"@ || path == "/login"@ || path == "/logout"@ || path == "/__shim.js"@
}

/// Routes that answer before anybody has proved who they are: the heartbeat, so
/// that "server down" and "wrong credentials" can be told apart, the way in and the
/// way out, and what the sign-in page is scripted by.
pub fn is_public(path: &str) -> (r: bool)
    ensures
        r == public_path(path@),
{
    text::same(path, "/api/heartbeat") || text::same(path, "/login") || text::same(path, "/logout") || text::same(
        path,
        "/__shim.js",
    )
}

/// What a request says of itself.
pub struct Request<'a> {
    pub path: &'a str,
    pub authorization: Option<&'a str>,
    pub cookie: Option<&'a str>,
    pub accept: Option<&'a str>,
}

/// What is done about a request.
#[derive(Debug)]
pub enum Admission {
    /// It goes on, as this person's.
    Admitted(Identity),
    /// It is sent to sign in.
    SignIn,
    /// It is refused: nobody knows who it is.
    Unknown,
    /// It is refused: it is the owner's to do.
    Forbidden(String),
}

/// What is done about a request, as a value.
pub enum Settled {
    Admitted(auth::Who),
    SignIn,
    Unknown,
    Forbidden(Seq<char>),
}

impl View for Admission {
    type V = Settled;

    open spec fn view(&self) -> Settled {
        match self {
            Admission::Admitted(who) => Settled::Admitted(who@),
            Admission::SignIn => Settled::SignIn,
            Admission::Unknown => Settled::Unknown,
            Admission::Forbidden(why) => Settled::Forbidden(why@),
        }
    }
}

/// Who a cookie header is.
pub open spec fn who_by_cookie(sessions: Map<Seq<char>, Identity>, cookie: Option<Seq<char>>) -> Option<auth::Who> {
    match auth::session_in(cookie) {
        Some(id) => if sessions.contains_key(id) {
            Some(sessions[id]@)
        } else {
            None
        },
        None => None,
    }
}

/// Who a request is: by its credentials, or else by its session.
pub open spec fn who_is(cfg: AuthConfig, sessions: Map<Seq<char>, Identity>, r: Request) -> Option<auth::Who> {
    match auth::identified(cfg, text::opt_str(r.authorization)) {
        Some(w) => Some(w),
        None => who_by_cookie(sessions, text::opt_str(r.cookie)),
    }
}

/// Whether a request comes from a browser that wants a page.
pub open spec fn wants_page(r: Request) -> bool {
    match r.accept {
        Some(a) => text::has(a@, "text/html"@) && text::after(r.path@, "/api/"@) is None,
        None => false,
    }
}

/// The command that a request is, if it is one.
pub open spec fn command(r: Request) -> Option<Seq<char>> {
    text::after(r.path@, "/invoke/"@)
}

/// What is done about a request.
pub open spec fn settled(cfg: AuthConfig, sessions: Map<Seq<char>, Identity>, r: Request) -> Settled {
    if auth::is_open(cfg) || public_path(r.path@) {
        Settled::Admitted(auth::Who::Owner)
    } else {
        match who_is(cfg, sessions, r) {
            None => if wants_page(r) {
                Settled::SignIn
            } else {
                Settled::Unknown
            },
            Some(who) => match command(r) {
                Some(cmd) => if who != auth::Who::Owner && !auth::is_read_only(cmd) {
                    Settled::Forbidden(cmd + " is the owner's to do"@)
                } else {
                    Settled::Admitted(who)
                },
                None => Settled::Admitted(who),
            },
        }
    }
}

fn identify(guard: &Guard, r: &Request) -> (who: Option<Identity>)
    ensures
        auth::who(who) == who_is(guard.cfg, guard.sessions@, *r),
{
    match auth::from_header(&guard.cfg, r.authorization) {
        Some(w) => Some(w),
        None => match auth::session_from_cookies(r.cookie) {
            Some(id) => guard.sessions.get(&id),
            None => None,
        },
    }
}

/// Identifies the caller, or refuses.
///
/// A browser gets the sign-in page rather than the platform's own box, which cannot
/// carry a token. One route serves every command, and the line between reading the
/// library and changing it runs between the commands: it is drawn here, before
/// anything is resolved.
pub fn require_auth(guard: &Guard, req: &Request) -> (r: Admission)
    ensures
        r@ == settled(guard.cfg, guard.sessions@, *req),
{
    if guard.cfg.open() || is_public(req.path) {
        return Admission::Admitted(Identity::Owner);
    }
    let who = match identify(guard, req) {
        Some(w) => w,
        None => {
            let page = match req.accept {
                Some(a) => text::contains(a, "text/html") && text::strip_prefix(req.path, "/api/").is_none(),
                None => false,
            };
            return if page {
                Admission::SignIn
            } else {
                Admission::Unknown
            };
        },
    };
    if !who.is_owner() {
        if let Some(cmd) = text::strip_prefix(req.path, "/invoke/") {
            if auth::owner_only(&cmd) {
                let mut why = text::owned(&cmd);
                why.append(" is the owner's to do");
                return Admission::Forbidden(why);
            }
        }
    }
    Admission::Admitted(who)
}

/// What a sign-in is asked with.
pub struct Credentials<'a> {
    pub token: &'a str,
    pub username: &'a str,
    pub password: &'a str,
    pub guest: bool,
}

/// The `Authorization` header that credentials make: the token where there is one,
/// or else the name and password.
pub open spec fn header_of(c: Credentials) -> Seq<char> {
    if c.token@.len() > 0 {
        "Bearer "@ + c.token@
    } else {
        "Basic "@ + crypto::base64_text(vstd::utf8::encode_utf8(c.username@ + ":"@ + c.password@))
    }
}

/// Who credentials are. The shared account has no password to check: the button is
/// the credential, where the owner has switched it on.
pub open spec fn signed_in(cfg: AuthConfig, c: Credentials) -> Option<auth::Who> {
    if c.guest {
        if cfg.guest {
            Some(auth::Who::User(auth::GUEST@))
        } else {
            None
        }
    } else {
        auth::identified(cfg, Some(header_of(c)))
    }
}

fn header_for(c: &Credentials) -> (r: String)
    ensures
        r@ == header_of(*c),
{
    if !text::is_empty(c.token) {
        let mut h = text::owned("Bearer ");
        h.append(c.token);
        return h;
    }
    let mut pair = text::owned(c.username);
    pair.append(":");
    pair.append(c.password);
    let mut h = text::owned("Basic ");
    let coded = crypto::base64_encode(&text::encoded(&pair));
    h.append(&coded);
    h
}

/// Who credentials are.
pub fn sign_in(cfg: &AuthConfig, c: &Credentials) -> (r: Option<Identity>)
    ensures
        auth::who(r) == signed_in(*cfg, *c),
{
    if c.guest {
        if cfg.guest {
            return Some(Identity::User(text::owned(auth::GUEST)));
        }
        return None;
    }
    let h = header_for(c);
    auth::from_header(cfg, Some(&h))
}

/// The cookie that carries a session. Not for scripts to read, and not sent from
/// another site.
pub open spec fn session_cookie(id: Seq<char>) -> Seq<char> {
    "moose_session="@ + id + "; Path=/; HttpOnly; SameSite=Lax; Max-Age=2592000"@
}

/// The cookie that carries a session.
pub fn cookie_for(id: &str) -> (r: String)
    ensures
        r@ == session_cookie(id@),
{
    let mut s = text::owned("moose_session=");
    s.append(id);
    s.append("; Path=/; HttpOnly; SameSite=Lax; Max-Age=2592000");
    s
}

/// What a sign-in gives.
#[derive(Debug)]
pub struct SignedIn {
    pub cookie: String,
    pub owner: bool,
    pub name: String,
}

/// Whether a sign-in gave a session that is now this person's.
pub open spec fn has_session(before: Map<Seq<char>, Identity>, after: Map<Seq<char>, Identity>, s: SignedIn, w: auth::Who) -> bool {
    exists|id: Seq<char>, who: Identity|
        #![trigger before.insert(id, who)]
        after == before.insert(id, who) && who@ == w && auth::is_cookie_value(id) && s.cookie@ == session_cookie(id)
}

/// What goes wrong with a sign-in.
#[derive(Debug, Clone, Copy, PartialEq, Eq, Structural)]
pub enum NotIn {
    /// Nobody knows the credentials. One answer for a bad token and a bad password,
    /// so that neither says which of the two exists.
    Refused,
    /// There was no chance to be had for a session's id.
    NoChance,
}

/// What a person is called.
pub open spec fn name_of(w: auth::Who) -> Seq<char> {
    match w {
        auth::Who::Owner => "owner"@,
        auth::Who::User(n) => n,
    }
}

/// Swaps a token or a username and password for a session, under the id that some
/// bytes make where there are any.
pub fn login_as(guard: &mut Guard, c: &Credentials, chance: Option<Vec<u8>>) -> (r: Result<SignedIn, NotIn>)
    ensures
        final(guard).cfg == old(guard).cfg,
        old(guard).sessions.wf() ==> final(guard).sessions.wf(),
        match (signed_in(old(guard).cfg, *c), chance) {
            (None, _) => r == Err::<SignedIn, NotIn>(NotIn::Refused) && final(guard).sessions@
                == old(guard).sessions@,
            (Some(_), None) => r == Err::<SignedIn, NotIn>(NotIn::NoChance) && final(guard).sessions@
                == old(guard).sessions@,
            (Some(w), Some(b)) => {
                let id = crypto::base64_url_text(b@);
                &&& r matches Ok(s) && s.cookie@ == session_cookie(id) && s.owner == (w == auth::Who::Owner)
                    && s.name@ == name_of(w) && has_session(old(guard).sessions@, final(guard).sessions@, s, w)
                &&& final(guard).sessions@.dom() == old(guard).sessions@.dom().insert(id)
                &&& final(guard).sessions@[id]@ == w
            },
        },
{
    let who = match sign_in(&guard.cfg, c) {
        Some(w) => w,
        None => {
            return Err(NotIn::Refused);
        },
    };
    let bytes = match chance {
        Some(b) => b,
        None => {
            return Err(NotIn::NoChance);
        },
    };
    let owner = who.is_owner();
    let name = text::owned(who.name());
    let ghost before = guard.sessions@;
    let ghost w = who;
    let id = guard.sessions.open_as(&bytes, who);
    let cookie = cookie_for(&id);
    assert(guard.sessions@ == before.insert(id@, w));
    assert(guard.sessions@.dom() =~= before.dom().insert(id@));
    Ok(SignedIn { cookie, owner, name })
}

/// Swaps a token or a username and password for a session, under an id of chance.
pub fn login(guard: &mut Guard, c: &Credentials) -> (r: Result<SignedIn, NotIn>)
    ensures
        final(guard).cfg == old(guard).cfg,
        old(guard).sessions.wf() ==> final(guard).sessions.wf(),
        match r {
            Ok(s) => signed_in(old(guard).cfg, *c) matches Some(w) && s.owner == (w == auth::Who::Owner) && s.name@
                == name_of(w) && has_session(old(guard).sessions@, final(guard).sessions@, s, w) && exists|
                b: Seq<u8>,
            |
                b.len() == 24 && s.cookie@ == session_cookie(#[trigger] crypto::base64_url_text(b)),
            Err(e) => final(guard).sessions@ == old(guard).sessions@ && (e == NotIn::Refused) == (signed_in(
                old(guard).cfg,
                *c,
            ) is None),
        },
{
    let chance = crypto::random_bytes(24);
    let ghost bytes = chance;
    let r = login_as(guard, c, chance);
    proof {
        if r is Ok {
            let b = bytes->0@;
            assert(b.len() == 24 && r->Ok_0.cookie@ == session_cookie(crypto::base64_url_text(b)));
        }
    }
    r
}

/// Signs out: closes the session of a cookie header, if it has one, and gives the
/// cookie that takes it back.
pub fn logout(guard: &mut Guard, cookie: Option<&str>) -> (r: String)
    ensures
        final(guard).cfg == old(guard).cfg,
        final(guard).sessions@ == (match auth::session_in(text::opt_str(cookie)) {
            Some(id) => old(guard).sessions@.remove(id),
            None => old(guard).sessions@,
        }),
        old(guard).sessions.wf() ==> final(guard).sessions.wf(),
        r@ == "moose_session=; Path=/; HttpOnly; SameSite=Lax; Max-Age=0"@,
{
    if let Some(id) = auth::session_from_cookies(cookie) {
        guard.sessions.close(&id);
    }
    text::owned("moose_session=; Path=/; HttpOnly; SameSite=Lax; Max-Age=0")
}

/// The sign-in page. It renders before anything is authorised.
pub const LOGIN_PAGE: &'static str = r#"<!doctype html>
<meta charset="utf-8"><meta name="viewport" content="width=device-width,initial-scale=1">
<title>Moose Rack</title>
<style>
 :root { color-scheme: dark }
 body { margin:0; min-height:100vh; display:grid; place-items:center;
        background:#14161a; color:#e8eaed;
        font:14px/1.5 ui-sans-serif,system-ui,-apple-system,Segoe UI,Roboto,sans-serif }
 form { width:min(92vw,320px); display:grid; gap:10px }
 h1 { font-size:17px; margin:0 0 6px; font-weight:600 }
 p.hint { margin:0 0 10px; color:#9aa0a6; font-size:12px }
 input { padding:9px 11px; border-radius:7px; border:1px solid #2a2e35;
         background:#1b1e24; color:inherit; font:inherit; width:100% ; box-sizing:border-box }
 input:focus { outline:2px solid #4c8dff; outline-offset:1px; border-color:transparent }
 button { padding:9px 11px; border-radius:7px; border:0; background:#4c8dff; color:#fff;
          font:inherit; font-weight:600; cursor:pointer }
 button:disabled { opacity:.6; cursor:default }
 button.ghost { background:transparent; border:1px solid #2a2e35; color:#c8ccd2; font-weight:500 }
 button.ghost:hover { border-color:#3a4049; color:#e8eaed }
 .sep { display:flex; align-items:center; gap:10px; color:#666; font-size:11px;
        text-transform:uppercase; letter-spacing:.08em }
 .sep::before,.sep::after { content:""; flex:1; height:1px; background:#2a2e35 }
 .err { color:#ff8a80; font-size:12px; min-height:1.4em }
</style>
<form id="f">
  <h1>Moose Rack</h1>
  <p class="hint">Sign in with your token, or with a username and password.</p>
  <input name="token" type="password" placeholder="Token" autocomplete="off">
  <div class="sep">or</div>
  <input name="username" placeholder="Username" autocomplete="username">
  <input name="password" type="password" placeholder="Password" autocomplete="current-password">
  <button>Sign in</button>
  <!--GUEST-->
  <div class="err" id="e"></div>
</form>
<script>
document.getElementById("f").addEventListener("submit", async (ev) => {
  ev.preventDefault();
  const f = ev.target, b = f.querySelector("button"), e = document.getElementById("e");
  b.disabled = true; e.textContent = "";
  const body = Object.fromEntries(new FormData(f));
  const r = await fetch("/login", {
    method: "POST", headers: { "content-type": "application/json" }, body: JSON.stringify(body),
  });
  if (r.ok) { location.href = "/"; return; }
  b.disabled = false;
  e.textContent = "Not recognised.";
});
const g = document.getElementById("g");
if (g) g.addEventListener("click", async () => {
  g.disabled = true;
  const r = await fetch("/login", {
    method: "POST", headers: { "content-type": "application/json" },
    body: JSON.stringify({ guest: true }),
  });
  if (r.ok) { location.href = "/"; return; }
  g.disabled = false;
  document.getElementById("e").textContent = "Guest access is off.";
});
</script>
"#;

/// The button of the shared account.
pub const GUEST_BUTTON: &'static str = r#"<div class="sep">or</div>
  <button type="button" id="g" class="ghost">Continue as guest</button>"#;

/// The sign-in page. The button of the shared account is drawn only when it will
/// work.
pub fn login_page(guest: bool) -> (r: String)
    ensures
        r@ == text::replace(LOGIN_PAGE@, "<!--GUEST-->"@, if guest {
            GUEST_BUTTON@
        } else {
            ""@
        }),
{
    proof {
        reveal_strlit("<!--GUEST-->");
    }
    if guest {
        text::replaced(LOGIN_PAGE, "<!--GUEST-->", GUEST_BUTTON)
    } else {
        text::replaced(LOGIN_PAGE, "<!--GUEST-->", "")
    }
}

// ---------------------------------------------------------------------------
// Devices, and what they agreed to
// ---------------------------------------------------------------------------

/// Device registrations and what each last agreed with the server.
///
/// Losing it is not fatal: every save becomes a conflict on the next differing
/// sync, which is the safe direction to fail in.
#[derive(Debug)]
pub struct Persisted {
    /// Names of devices, by id.
    pub devices: Table<String, String>,
    /// The hash last agreed on, by a key of device, game and file.
    pub seen: Table<String, String>,
}

impl Default for Persisted {
    fn default() -> (r: Persisted)
        ensures
            r.devices.wf(),
            r.seen.wf(),
            r.devices@ == Map::<Seq<char>, String>::empty(),
            r.seen@ == Map::<Seq<char>, String>::empty(),
    {
        Persisted { devices: Table::new(), seen: Table::new() }
    }
}

/// The device, the game and the file that a key is about, where it reads.
pub open spec fn seen_key(key: Seq<char>) -> Option<(Seq<char>, i64, Seq<char>)> {
    let p = text::split(key, '\0');
    if p.len() < 3 {
        None
    } else {
        match number::signed(p[1]) {
            Some(n) => if i64::MIN <= n <= i64::MAX {
                Some((p[0], n as i64, p[2]))
            } else {
                None
            },
            None => None,
        }
    }
}

fn seen_key_of(key: &str) -> (r: Option<SeenKey>)
    ensures
        match r {
            Some(k) => seen_key(key@) == Some(k.of()),
            None => seen_key(key@) is None,
        },
{
    let p = text::pieces(key, '\0');
    let ghost all = text::texts(p@);
    assert(all.len() == p@.len());
    if p.len() < 3 {
        return None;
    }
    assert(all[0] == p@[0]@ && all[1] == p@[1]@ && all[2] == p@[2]@);
    match number::parse_i64(&p[1]) {
        Some(n) => Some(SeenKey { device: text::owned(&p[0]), rom_id: n, file: text::owned(&p[2]) }),
        None => None,
    }
}

/// Whether a hash is one that was kept under some key about this.
pub open spec fn kept_under(pairs: Seq<(String, String)>, k: (Seq<char>, i64, Seq<char>), hash: Seq<char>) -> bool {
    exists|i: int| 0 <= i < pairs.len() && seen_key((#[trigger] pairs[i]).0@) == Some(k) && pairs[i].1@ == hash
}

/// The key of a device, a game and a file.
pub fn key_for(device: &str, rom_id: i64, file: &str) -> (r: String)
    ensures
        r@ == legacy::key_text(device@, rom_id as int, file@),
{
    let mut s = text::owned(device);
    s.push('\0');
    let n = number::text_of(rom_id);
    s.append(&n);
    s.push('\0');
    s.append(file);
    assert(s@ =~= legacy::key_text(device@, rom_id as int, file@));
    s
}

/// A device's name: the one it gave, or its host's, or that it has none.
pub open spec fn device_name(name: Option<Seq<char>>, hostname: Option<Seq<char>>) -> Seq<char> {
    match name {
        Some(n) => n,
        None => match hostname {
            Some(h) => h,
            None => "unnamed"@,
        },
    }
}

/// The lowest digits of a number, in hexadecimal.
pub open spec fn hex_digits(n: nat, digits: nat) -> Seq<char>
    decreases digits,
{
    if digits == 0 {
        Seq::empty()
    } else {
        hex_digits(n / 16, (digits - 1) as nat).push(crypto::hex_digit((n % 16) as int))
    }
}

/// The id of a device that is new: made of its name, as sixteen digits.
pub open spec fn device_id(name: Seq<char>) -> Seq<char> {
    hex_digits(save_store::id_of(0, name) as nat, 16)
}

fn hex_char(d: u64) -> (r: char)
    requires
        d < 16,
    ensures
        r == crypto::hex_digit(d as int),
{
    if d == 0 {
        '0'
    } else if d == 1 {
        '1'
    } else if d == 2 {
        '2'
    } else if d == 3 {
        '3'
    } else if d == 4 {
        '4'
    } else if d == 5 {
        '5'
    } else if d == 6 {
        '6'
    } else if d == 7 {
        '7'
    } else if d == 8 {
        '8'
    } else if d == 9 {
        '9'
    } else if d == 10 {
        'a'
    } else if d == 11 {
        'b'
    } else if d == 12 {
        'c'
    } else if d == 13 {
        'd'
    } else if d == 14 {
        'e'
    } else {
        'f'
    }
}

fn hex_of(n: u64, digits: usize) -> (r: String)
    ensures
        r@ == hex_digits(n as nat, digits as nat),
    decreases digits,
{
    if digits == 0 {
        let s = String::new();
        assert(s@ =~= Seq::<char>::empty());
        return s;
    }
    let mut s = hex_of(n / 16, digits - 1);
    s.push(hex_char(n % 16));
    s
}

/// What a device last agreed on for a save.
pub open spec fn agreed_in(seen: Map<Seq<char>, String>, device: Seq<char>, rom_id: i64, file: Seq<char>) -> Option<
    Seq<char>,
> {
    let k = legacy::key_text(device, rom_id as int, file);
    if seen.contains_key(k) {
        Some(seen[k]@)
    } else {
        None
    }
}

impl Persisted {
    /// What every device last agreed on, by device, game and file. A key that does
    /// not read is left out; of several about one thing, one is taken.
    pub fn seen_map(&self) -> (r: Seen)
        ensures
            r.wf(),
            forall|i: int|
                0 <= i < self.seen.pairs().len() ==> match seen_key((#[trigger] self.seen.pairs()[i]).0@) {
                    Some(k) => r@.contains_key(k),
                    None => true,
                },
            forall|k: (Seq<char>, i64, Seq<char>)|
                #[trigger] r@.contains_key(k) ==> kept_under(self.seen.pairs(), k, r@[k]@),
    {
        let mut out: Seen = Table::new();
        let ghost all = self.seen.pairs();
        let mut i: usize = 0;
        while i < self.seen.entries().len()
            invariant
                all == self.seen.pairs(),
                i <= all.len(),
                out.wf(),
                forall|j: int|
                    0 <= j < i ==> match seen_key((#[trigger] all[j]).0@) {
                        Some(k) => out@.contains_key(k),
                        None => true,
                    },
                forall|k: (Seq<char>, i64, Seq<char>)|
                    #[trigger] out@.contains_key(k) ==> kept_under(all, k, out@[k]@),
            decreases all.len() - i,
        {
            let entry = &self.seen.entries()[i];
            let ghost before = out@;
            let ghost n = i as int;
            if let Some(k) = seen_key_of(&entry.0) {
                let ghost key = k.of();
                let v = text::owned(&entry.1);
                let ghost value = v@;
                out.insert(k, v);
                proof {
                    assert(kept_under(all, key, value)) by {
                        assert(seen_key(all[n].0@) == Some(key));
                    }
                    assert forall|x: (Seq<char>, i64, Seq<char>)|
                        #[trigger] out@.contains_key(x) implies kept_under(all, x, out@[x]@) by {
                        if x != key {
                            assert(before.contains_key(x));
                        }
                    }
                }
            }
            i += 1;
        }
        out
    }

    /// Takes down what a device has agreed on.
    pub fn agree(&mut self, device: &str, rom_id: i64, file: &str, hash: &str)
        ensures
            final(self).seen@.dom() == old(self).seen@.dom().insert(legacy::key_text(device@, rom_id as int, file@)),
            final(self).seen@[legacy::key_text(device@, rom_id as int, file@)]@ == hash@,
            forall|k: Seq<char>|
                k != legacy::key_text(device@, rom_id as int, file@) && old(self).seen@.contains_key(k)
                    ==> #[trigger] final(self).seen@[k] == old(self).seen@[k],
            old(self).seen.wf() ==> final(self).seen.wf(),
            final(self).devices == old(self).devices,
    {
        self.seen.insert(key_for(device, rom_id, file), text::owned(hash));
    }

    /// What a device last agreed on for a save.
    pub fn agreed(&self, device: &str, rom_id: i64, file: &str) -> (r: Option<String>)
        ensures
            text::opt(r) == agreed_in(self.seen@, device@, rom_id, file@),
    {
        match self.seen.get(&key_for(device, rom_id, file)) {
            Some(h) => Some(text::owned(h)),
            None => None,
        }
    }

    /// Registers a device, or hands back the one already registered under its name.
    ///
    /// A fresh id at every call would give each one empty bookkeeping, and every
    /// save would then look like a first-time upload.
    pub fn register_device(&mut self, name: Option<&str>, hostname: Option<&str>) -> (r: (String, String))
        requires
            old(self).devices.wf(),
        ensures
            final(self).devices.wf(),
            final(self).seen == old(self).seen,
            r.1@ == device_name(text::opt_str(name), text::opt_str(hostname)),
            final(self).devices@.contains_key(r.0@) && final(self).devices@[r.0@]@ == r.1@,
            (exists|id: Seq<char>| #[trigger] old(self).devices@.contains_key(id) && old(self).devices@[id]@ == r.1@)
                ==> final(self).devices@ == old(self).devices@,
            !(exists|id: Seq<char>| #[trigger] old(self).devices@.contains_key(id) && old(self).devices@[id]@ == r.1@)
                ==> r.0@ == device_id(r.1@) && final(self).devices@.dom() == old(self).devices@.dom().insert(r.0@),
            forall|id: Seq<char>|
                id != r.0@ && #[trigger] old(self).devices@.contains_key(id) ==> final(self).devices@[id]
                    == old(self).devices@[id],
    {
        let called: String = match name {
            Some(n) => text::owned(n),
            None => match hostname {
                Some(h) => text::owned(h),
                None => text::owned("unnamed"),
            },
        };
        let ghost all = self.devices.pairs();
        let ghost m = self.devices@;
        proof {
            self.devices.lemma_pairs();
        }
        let mut i: usize = 0;
        while i < self.devices.entries().len()
            invariant
                self.devices == old(self).devices,
                self.seen == old(self).seen,
                old(self).devices.wf(),
                all == self.devices.pairs(),
                m == self.devices@,
                m == table::mapped(all),
                called@ == device_name(text::opt_str(name), text::opt_str(hostname)),
                i <= all.len(),
                forall|j: int| 0 <= j < i ==> (#[trigger] all[j]).1@ != called@,
            decreases all.len() - i,
        {
            let entry = &self.devices.entries()[i];
            if text::same(&entry.1, &called) {
                proof {
                    self.devices.lemma_pair_at(i as int);
                    assert(m.contains_key(entry.0@) && m[entry.0@] == entry.1);
                }
                return (text::owned(&entry.0), called);
            }
            i += 1;
        }
        proof {
            assert forall|id: Seq<char>| #[trigger] m.contains_key(id) implies m[id]@ != called@ by {
                self.devices.lemma_key_at(id);
            }
        }
        let id = hex_of(save_store::save_id(0, &called) as u64, 16);
        self.devices.insert(text::owned(&id), text::owned(&called));
        (id, called)
    }
}

/// Decides what should happen to every save, and gives the plan a session that the
/// client can quote back. Nothing is reserved by it.
pub fn negotiate(
    device: &str,
    client: &Vec<ClientSaveState>,
    server: &Vec<ServerSave>,
    seen: &Seen,
) -> (r: SyncPlan)
    requires
        client@.len() + server@.len() <= i64::MAX,
    ensures
        r.session_id == Some(1i64),
        saves::ops(r.operations@) == saves::planned(device@, client@, saves::held(server@), seen@),
        r.total_upload == saves::count_of(saves::ops(r.operations@), "upload"@),
        r.total_download == saves::count_of(saves::ops(r.operations@), "download"@),
        r.total_conflict == saves::count_of(saves::ops(r.operations@), "conflict"@),
        r.total_no_op == saves::count_of(saves::ops(r.operations@), "no_op"@),
{
    let mut plan = saves::plan(device, client, server, seen);
    plan.session_id = Some(1);
    plan
}

// ---------------------------------------------------------------------------
// Uploads
// ---------------------------------------------------------------------------

/// A part of what a client sends in an upload: the field it came under, the name its
/// file has there, and its bytes.
pub struct Part {
    pub field: Option<String>,
    pub file_name: Option<String>,
    pub bytes: Vec<u8>,
}

/// The last part that came under a field.
pub open spec fn last_part(parts: Seq<Part>, field: Seq<char>) -> Option<Part>
    decreases parts.len(),
{
    if parts.len() == 0 {
        None
    } else if text::opt(parts.last().field) == Some(field) {
        Some(parts.last())
    } else {
        last_part(parts.drop_last(), field)
    }
}

/// The file a client sent under a field, and its name. Other parts are ignored
/// rather than guessed at, and of several under the field the last counts. Nothing
/// sent is no name and no bytes.
pub fn file_part(parts: &Vec<Part>, field: &str, unnamed: &str) -> (r: (String, Vec<u8>))
    ensures
        match last_part(parts@, field@) {
            Some(p) => r.1@ == p.bytes@ && r.0@ == (match p.file_name {
                Some(n) => n@,
                None => unnamed@,
            }),
            None => r.0@.len() == 0 && r.1@.len() == 0,
        },
{
    let mut i: usize = parts.len();
    assert(parts@.take(i as int) =~= parts@);
    while i > 0
        invariant
            i <= parts@.len(),
            last_part(parts@, field@) == last_part(parts@.take(i as int), field@),
        decreases i,
    {
        i -= 1;
        assert(parts@.take(i + 1).drop_last() =~= parts@.take(i as int));
        assert(parts@.take(i + 1).last() == parts@[i as int]);
        if let Some(f) = &parts[i].field {
            if text::same(f, field) {
                let name = match &parts[i].file_name {
                    Some(n) => text::owned(n),
                    None => text::owned(unnamed),
                };
                return (name, text::bytes_of(&parts[i].bytes));
            }
        }
    }
    (String::new(), Vec::new())
}

/// The name a state is stored under: the last part of what it was called, unless
/// that is nothing or hidden. A path in the name would write outside the store.
pub open spec fn safe_name(name: Seq<char>) -> Option<Seq<char>> {
    match paths::name(name) {
        Some(n) => if text::starts(n, "."@) || n.len() == 0 {
            None
        } else {
            Some(n)
        },
        None => None,
    }
}

/// The name a state is stored under, or the refusal of one that has none.
pub fn state_name(name: &str) -> (r: Result<String, Failure>)
    ensures
        match safe_name(name@) {
            Some(n) => r is Ok && r->Ok_0@ == n,
            None => r is Err && r->Err_0@ == seq!["no usable stateFile"@],
        },
{
    match paths::file_name(name) {
        Some(n) => if text::is_empty(&n) || text::starts_with(&n, ".") {
            Err(Failure::new("no usable stateFile"))
        } else {
            Ok(n)
        },
        None => Err(Failure::new("no usable stateFile")),
    }
}

/// What is said of a save that is not taken.
pub open spec fn conflict_text(name: Seq<char>, server: Option<Seq<char>>, agreed: Option<Seq<char>>) -> Seq<char> {
    "the server copy of "@ + name + " changed since this device last agreed (server "@ + (match server {
        Some(h) => h,
        None => ""@,
    }) + ", last agreed "@ + (match agreed {
        Some(h) => h,
        None => "never"@,
    }) + ")"@
}

/// Why an upload is not taken.
#[derive(Debug)]
pub enum NotTaken {
    /// It has no file.
    NoFile,
    /// The server's copy moved since this device last agreed.
    Conflict(String),
}

/// Whether an upload is taken: unless the server's copy moved since this device
/// last agreed. Overwriting is not a retry: it is a person having been shown the
/// conflict and chosen.
pub open spec fn takes(existing: Option<saves::Held>, agreed: Option<Seq<char>>, overwrite: bool) -> bool {
    overwrite || existing is None || agreed == existing->0.content_hash
}

fn said(t: &Option<String>, otherwise: &str) -> (r: String)
    ensures
        r@ == (match text::opt(*t) {
            Some(s) => s,
            None => otherwise@,
        }),
{
    match t {
        Some(s) => text::owned(s),
        None => text::owned(otherwise),
    }
}

/// Whether an upload is taken, given the server's copy of that save, if it has one,
/// and what this device last agreed on.
///
/// Refusing is the point: it is how a client discovers a conflict at all.
pub fn upload_save(
    name: &str,
    existing: Option<&ServerSave>,
    agreed: &Option<String>,
    overwrite: bool,
) -> (r: Result<(), NotTaken>)
    ensures
        ({
            let held = match existing {
                Some(s) => Some(s@),
                None => None,
            };
            if name@.len() == 0 {
                r matches Err(NotTaken::NoFile)
            } else if takes(held, text::opt(*agreed), overwrite) {
                r is Ok
            } else {
                r matches Err(NotTaken::Conflict(why)) && why@ == conflict_text(
                    name@,
                    held->0.content_hash,
                    text::opt(*agreed),
                )
            }
        }),
{
    if text::is_empty(name) {
        return Err(NotTaken::NoFile);
    }
    if overwrite {
        return Ok(());
    }
    match existing {
        None => Ok(()),
        Some(cur) => {
            if text::same_option(agreed, &cur.content_hash) {
                return Ok(());
            }
            let mut why = text::owned("the server copy of ");
            why.append(name);
            why.append(" changed since this device last agreed (server ");
            let a = said(&cur.content_hash, "");
            why.append(&a);
            why.append(", last agreed ");
            let b = said(agreed, "never");
            why.append(&b);
            why.append(")");
            Err(NotTaken::Conflict(why))
        },
    }
}

/// The first of some saves that has a name.
pub open spec fn first_named(held: Seq<saves::Held>, name: Seq<char>) -> Option<saves::Held>
    decreases held.len(),
{
    if held.len() == 0 {
        None
    } else if held[0].file_name == name {
        Some(held[0])
    } else {
        first_named(held.skip(1), name)
    }
}

fn find_named<'a>(held: &'a Vec<ServerSave>, name: &str) -> (r: Option<&'a ServerSave>)
    ensures
        first_named(saves::held(held@), name@) == (match r {
            Some(s) => Some(s@),
            None => None,
        }),
{
    let ghost all = saves::held(held@);
    let mut i: usize = 0;
    assert(all.skip(0) =~= all);
    while i < held.len()
        invariant
            all == saves::held(held@),
            i <= held@.len(),
            first_named(all, name@) == first_named(all.skip(i as int), name@),
        decreases held@.len() - i,
    {
        assert(all.skip(i as int)[0] == held@[i as int]@);
        assert(all.skip(i as int).skip(1) =~= all.skip(i + 1));
        if text::same(&held[i].file_name, name) {
            return Some(&held[i]);
        }
        i += 1;
    }
    None
}

impl Persisted {
    /// Whether a device's upload is taken, given what the server holds for the game.
    pub fn upload(
        &self,
        device: &str,
        rom_id: i64,
        name: &str,
        held: &Vec<ServerSave>,
        overwrite: bool,
    ) -> (r: Result<(), NotTaken>)
        ensures
            ({
                let existing = first_named(saves::held(held@), name@);
                let agreed = agreed_in(self.seen@, device@, rom_id, name@);
                if name@.len() == 0 {
                    r matches Err(NotTaken::NoFile)
                } else if takes(existing, agreed, overwrite) {
                    r is Ok
                } else {
                    r matches Err(NotTaken::Conflict(why)) && why@ == conflict_text(
                        name@,
                        existing->0.content_hash,
                        agreed,
                    )
                }
            }),
    {
        let agreed = self.agreed(device, rom_id, name);
        upload_save(name, find_named(held, name), &agreed, overwrite)
    }

    /// Takes note that a device and the server agree on a save that was written.
    pub fn taken(&mut self, device: &str, written: &ServerSave)
        ensures
            agreed_in(final(self).seen@, device@, written.rom_id, written.file_name@) == Some(
                match text::opt(written.content_hash) {
                    Some(h) => h,
                    None => ""@,
                },
            ),
            final(self).seen@.dom() == old(self).seen@.dom().insert(
                legacy::key_text(device@, written.rom_id as int, written.file_name@),
            ),
            forall|k: Seq<char>|
                k != legacy::key_text(device@, written.rom_id as int, written.file_name@)
                    && old(self).seen@.contains_key(k) ==> #[trigger] final(self).seen@[k] == old(self).seen@[k],
            old(self).seen.wf() ==> final(self).seen.wf(),
            final(self).devices == old(self).devices,
    {
        let hash = said(&written.content_hash, "");
        self.agree(device, written.rom_id, &written.file_name, &hash);
    }
}

/// A device that wrote a save may write it again, as long as nobody else did: what
/// was noted when it was taken is what its next upload is held against.
pub proof fn law_an_upload_is_taken_while_nothing_moved(
    seen: Map<Seq<char>, String>,
    device: Seq<char>,
    written: saves::Held,
    now: saves::Held,
)
    requires
        written.content_hash is Some,
        agreed_in(seen, device, written.rom_id, written.file_name) == written.content_hash,
    ensures
        takes(Some(now), agreed_in(seen, device, written.rom_id, written.file_name), false) <==> now.content_hash
            == written.content_hash,
{
}

// ---------------------------------------------------------------------------
// Settings
// ---------------------------------------------------------------------------

/// Where the parts of the library are, as far as somebody said.
#[derive(Debug)]
pub struct LibraryPaths {
    pub root: Option<String>,
    pub roms: Option<String>,
    pub media: Option<String>,
    pub collections: Option<String>,
    pub firmware: Option<String>,
    pub inventory: Option<String>,
    pub saves: Option<String>,
    pub ui: Option<String>,
    pub app_config: Option<String>,
    pub emulatorjs: Option<String>,
}

/// A flag, or else what the file says.
pub fn pick(flag: &Option<String>, file: &Option<String>) -> (r: Option<String>)
    ensures
        text::opt(r) == (match text::opt(*flag) {
            Some(s) => Some(s),
            None => text::opt(*file),
        }),
{
    match flag {
        Some(s) => Some(text::owned(s)),
        None => match file {
            Some(s) => Some(text::owned(s)),
            None => None,
        },
    }
}

/// The library's root, which somebody has to say.
pub fn root_of(flag: &Option<String>, file: &Option<String>) -> (r: Result<String, Failure>)
    ensures
        match r {
            Ok(s) => text::opt(*flag) == Some(s@) || (text::opt(*flag) is None && text::opt(*file) == Some(s@)),
            Err(e) => text::opt(*flag) is None && text::opt(*file) is None && e@ == seq![
                "no --root and no [library] root in the config: nothing to serve"@,
            ],
        },
{
    match pick(flag, file) {
        Some(s) => Ok(s),
        None => Err(Failure::new("no --root and no [library] root in the config: nothing to serve")),
    }
}

/// A directory that was named, or else the one of that name below the root.
pub fn below_root(named: &Option<String>, root: &str, name: &str) -> (r: String)
    ensures
        r@ == (match text::opt(*named) {
            Some(s) => s,
            None => paths::joined(root@, name@),
        }),
{
    match named {
        Some(s) => text::owned(s),
        None => paths::join(root, name),
    }
}

// ---------------------------------------------------------------------------
// Laws
// ---------------------------------------------------------------------------

/// Without credentials the library is closed: where something is configured, a
/// request that is not public and proves nothing is not admitted.
pub proof fn law_without_credentials_the_library_is_closed(
    cfg: AuthConfig,
    sessions: Map<Seq<char>, Identity>,
    r: Request,
)
    requires
        !auth::is_open(cfg),
        !public_path(r.path@),
        r.authorization is None,
        who_by_cookie(sessions, text::opt_str(r.cookie)) is None,
    ensures
        settled(cfg, sessions, r) is SignIn || settled(cfg, sessions, r) is Unknown,
{
}

/// An API route never redirects.
pub proof fn law_an_api_route_never_redirects(cfg: AuthConfig, sessions: Map<Seq<char>, Identity>, r: Request)
    requires
        text::starts(r.path@, "/api/"@),
    ensures
        !(settled(cfg, sessions, r) is SignIn),
{
}

/// Whoever is not the owner is admitted to no command but those that only read.
pub proof fn law_writes_are_the_owners(
    cfg: AuthConfig,
    sessions: Map<Seq<char>, Identity>,
    r: Request,
    name: Seq<char>,
    cmd: Seq<char>,
)
    requires
        settled(cfg, sessions, r) == Settled::Admitted(auth::Who::User(name)),
        command(r) == Some(cmd),
    ensures
        auth::is_read_only(cmd),
{
}

proof fn lemma_cookie_pieces(id: Seq<char>)
    requires
        auth::is_cookie_value(id),
    ensures
        auth::session_in(Some("moose_session="@ + id)) == Some(id),
{
    reveal_strlit("moose_session=");
    reveal_strlit("moose_session");
    let h = "moose_session="@ + id;
    assert forall|i: int| 0 <= i < h.len() implies h[i] != ';' && !text::space(#[trigger] h[i]) by {
        if i >= 14 {
            assert(h[i] == id[i - 14]);
        }
    }
    assert(!h.contains(';'));
    crate::lines::lemma_split_one(h, ';');
    let ps = text::split(h, ';');
    assert(ps =~= seq![h]);
    assert(text::trim(h) == h) by {
        text::lemma_trim_start_is(h, 0);
        assert(h.skip(0) =~= h);
        text::lemma_trim_end_is(h, h.len() as int);
        assert(h.take(h.len() as int) =~= h);
    }
    let k = "moose_session"@;
    assert(!k.contains('='));
    assert(h =~= k + seq!['='] + id);
    text::lemma_cut_joined(k, '=', id);
    assert(ps[0] == h);
}

/// The cookie that a sign-in gives is the session that it opened: sent back, it is
/// that person again.
pub proof fn law_a_sign_in_carries(
    before: Map<Seq<char>, Identity>,
    after: Map<Seq<char>, Identity>,
    s: SignedIn,
    w: auth::Who,
)
    requires
        has_session(before, after, s, w),
    ensures
        exists|id: Seq<char>|
            s.cookie@ == #[trigger] session_cookie(id) && who_by_cookie(after, Some("moose_session="@ + id)) == Some(w),
{
    let (id, who) = choose|id: Seq<char>, who: Identity|
        #![trigger before.insert(id, who)]
        after == before.insert(id, who) && who@ == w && auth::is_cookie_value(id) && s.cookie@ == session_cookie(id);
    lemma_cookie_pieces(id);
    assert(s.cookie@ == session_cookie(id));
    assert(who_by_cookie(after, Some("moose_session="@ + id)) == Some(w));
}

/// A name and a password are never the owner, and a token is never a user.
pub proof fn law_credentials_do_not_cross(cfg: AuthConfig, header: Seq<char>)
    ensures
        auth::identified(cfg, Some(header)) == Some(auth::Who::Owner) ==> text::starts(header, "Bearer "@),
        (auth::identified(cfg, Some(header)) matches Some(w) && w is User) ==> text::starts(header, "Basic "@),
{
}

/// A device that sends a save which the server has, and that it never agreed on, is
/// refused unless it insists.
pub proof fn law_nothing_is_overwritten_blind(existing: saves::Held, agreed: Option<Seq<char>>)
    requires
        existing.content_hash is Some,
        agreed is None,
    ensures
        !takes(Some(existing), agreed, false),
{
}

/// A name that is stored leads nowhere else: it is one component, and not a hidden
/// one.
pub proof fn law_a_stored_name_is_no_path(name: Seq<char>)
    ensures
        match safe_name(name) {
            Some(n) => paths::components(name).len() > 0 && n == paths::components(name).last() && paths::is_name(n)
                && !text::starts(n, "."@),
            None => true,
        },
{
}

/// What a device agreed on is found again: the key that is written reads as the
/// device, the game and the file it was written for.
pub proof fn law_an_agreement_is_found_again(device: Seq<char>, rom_id: i64, file: Seq<char>)
    requires
        !device.contains('\0'),
        !file.contains('\0'),
    ensures
        seen_key(legacy::key_text(device, rom_id as int, file)) == Some((device, rom_id, file)),
{
    let n = number::int_text(rom_id as int);
    number::lemma_int_text_plain(rom_id as int);
    number::law_number_text_reads_back(rom_id as int);
    if n.contains('\0') {
        let i = choose|i: int| 0 <= i < n.len() && n[i] == '\0';
        assert(number::digit_value(n[i]) is Some || n[i] == '-');
    }
    let tail = n + seq!['\0'] + file;
    let key = legacy::key_text(device, rom_id as int, file);
    assert(key =~= device.push('\0') + tail);
    assert(tail =~= n.push('\0') + file);
    crate::lines::lemma_split_at(device, tail, '\0');
    crate::lines::lemma_split_at(n, file, '\0');
    crate::lines::lemma_split_one(device, '\0');
    crate::lines::lemma_split_one(n, '\0');
    crate::lines::lemma_split_one(file, '\0');
    assert(text::split(key, '\0') =~= seq![device, n, file]);
}

} // verus!
