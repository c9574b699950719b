//! Who is let in and to what, and which uploads are taken.

use vstd::prelude::*;
use crate::auth;
use crate::auth::{AuthConfig, Identity, User, Who};
use crate::crypto;
use crate::legacy;
use crate::number;
use crate::saves;
use crate::saves::{ClientSaveState, Seen, ServerSave, SyncPlan};
use crate::service;
use crate::service::{Admission, Guard, NotTaken, Part, Persisted, Request, Settled};
use crate::text;

verus! {

// ---------------------------------------------------------------------------
// Credentials
// ---------------------------------------------------------------------------

/// Whether a header gives the configured token, which is not an empty one.
pub open spec fn by_token(cfg: AuthConfig, h: Seq<char>) -> bool {
    exists|t: Seq<char>|
        h == #[trigger] ("Bearer "@ + t) && (cfg.token matches Some(own) && own@.len() > 0 && text::trim(t) == own@)
}

/// Whether a header gives the name and the password of one of the users: after
/// `Basic `, coded, the name, a colon and the password.
pub open spec fn by_password(cfg: AuthConfig, h: Seq<char>, name: Seq<char>) -> bool {
    exists|rest: Seq<char>, raw: Seq<u8>, pass: Seq<char>|
        {
            &&& h == #[trigger] ("Basic "@ + rest)
            &&& crypto::base64_bytes(text::trim(rest)) == Some(raw)
            &&& vstd::utf8::valid_utf8(raw)
            &&& #[trigger] vstd::utf8::decode_utf8(raw) == name + seq![':'] + pass
            &&& !name.contains(':')
            &&& #[trigger] has_user(cfg.users@, name, pass)
        }
}

/// Whether some user has this name, and a password that this one is.
pub open spec fn has_user(users: Seq<User>, name: Seq<char>, pass: Seq<char>) -> bool {
    exists|i: int|
        0 <= i < users.len() && (#[trigger] users[i]).name@ == name && auth::hash_matches(users[i].password@, pass)
}

proof fn lemma_after(h: Seq<char>, p: Seq<char>)
    ensures
        match text::after(h, p) {
            Some(t) => h == p + t,
            None => forall|t: Seq<char>| h != #[trigger] (p + t),
        },
        forall|t: Seq<char>| h == #[trigger] (p + t) ==> text::after(h, p) == Some(t),
{
    if let Some(t) = text::after(h, p) {
        assert(h =~= p + t);
    }
    assert forall|t: Seq<char>| h == #[trigger] (p + t) implies text::after(h, p) == Some(t) by {
        assert((p + t).take(p.len() as int) =~= p);
        assert((p + t).skip(p.len() as int) =~= t);
    }
}

proof fn lemma_two_heads(h: Seq<char>)
    ensures
        text::after(h, "Bearer "@) is None || text::after(h, "Basic "@) is None,
{
    reveal_strlit("Bearer ");
    reveal_strlit("Basic ");
    lemma_after(h, "Bearer "@);
    lemma_after(h, "Basic "@);
    if text::after(h, "Bearer "@) is Some && text::after(h, "Basic "@) is Some {
        let a = text::after(h, "Bearer "@).unwrap();
        let b = text::after(h, "Basic "@).unwrap();
        assert(("Bearer "@ + a)[1] == 'e');
        assert(("Basic "@ + b)[1] == 'a');
    }
}

proof fn lemma_identified(cfg: AuthConfig, h: Seq<char>, name: Seq<char>)
    ensures
        auth::identified(cfg, Some(h)) == Some(Who::Owner) <==> by_token(cfg, h),
        auth::identified(cfg, Some(h)) == Some(Who::User(name)) <==> by_password(cfg, h, name),
{
    lemma_after(h, "Bearer "@);
    lemma_after(h, "Basic "@);
    lemma_two_heads(h);
    let r = auth::identified(cfg, Some(h));
    if r == Some(Who::Owner) {
        let t = text::after(h, "Bearer "@).unwrap();
        assert(h == "Bearer "@ + t);
    }
    if r == Some(Who::User(name)) {
        let rest = text::after(h, "Basic "@).unwrap();
        let raw = crypto::base64_bytes(text::trim(rest)).unwrap();
        let t = vstd::utf8::decode_utf8(raw);
        text::lemma_cut_first(t, ':');
        let pass = text::cut(t, ':').unwrap().1;
        assert(h == "Basic "@ + rest);
        assert(has_user(cfg.users@, name, pass));
        assert(by_password(cfg, h, name));
    }
    if by_password(cfg, h, name) {
        let (rest, raw, pass) = choose|rest: Seq<char>, raw: Seq<u8>, pass: Seq<char>|
            {
                &&& h == #[trigger] ("Basic "@ + rest)
                &&& crypto::base64_bytes(text::trim(rest)) == Some(raw)
                &&& vstd::utf8::valid_utf8(raw)
                &&& #[trigger] vstd::utf8::decode_utf8(raw) == name + seq![':'] + pass
                &&& !name.contains(':')
                &&& #[trigger] has_user(cfg.users@, name, pass)
            };
        text::lemma_cut_joined(name, ':', pass);
        assert(auth::knows(cfg.users@, name, pass));
    }
}

/// A header is the owner's just where it gives the configured token, and a user's
/// just where it gives that user's name and password; any other is nobody's.
pub proof fn law_a_header_is_whose_credentials_it_gives(cfg: &AuthConfig, header: Option<&str>, r: Option<Identity>)
    requires
        call_ensures(auth::from_header, (cfg, header), r),
    ensures
        header is None ==> r is None,
        header matches Some(h) ==> {
            &&& (r matches Some(i) && i@ is Owner) <==> by_token(*cfg, h@)
            &&& forall|name: Seq<char>| #[trigger]
                by_password(*cfg, h@, name) <==> (r matches Some(i) && i@ == Who::User(name))
        },
{
    if let Some(h) = header {
        lemma_identified(*cfg, h@, Seq::empty());
        assert forall|name: Seq<char>| #[trigger] by_password(*cfg, h@, name) <==> (r matches Some(i) && i@
            == Who::User(name)) by {
            lemma_identified(*cfg, h@, name);
        }
    }
}

/// Whether a cookie is a session, and which.
pub open spec fn is_session(piece: Seq<char>, id: Seq<char>) -> bool {
    text::trim(piece) == "moose_session="@ + id
}

/// Whether the first session among some cookies is this one.
pub open spec fn first_session(pieces: Seq<Seq<char>>, id: Seq<char>, i: int) -> bool {
    &&& 0 <= i < pieces.len()
    &&& is_session(pieces[i], id)
    &&& forall|j: int, other: Seq<char>| 0 <= j < i ==> !#[trigger] is_session(pieces[j], other)
}

/// Whether the session of some cookies is this one.
pub open spec fn session_is(pieces: Seq<Seq<char>>, id: Seq<char>) -> bool {
    exists|i: int| #[trigger] first_session(pieces, id, i)
}

proof fn lemma_one_cookie(piece: Seq<char>, id: Seq<char>)
    ensures
        is_session(piece, id) <==> (text::cut(text::trim(piece), '=') matches Some((k, v)) && k
            == "moose_session"@ && v == id),
{
    reveal_strlit("moose_session=");
    reveal_strlit("moose_session");
    let t = text::trim(piece);
    let k = "moose_session"@;
    assert(!k.contains('='));
    assert("moose_session="@ =~= k + seq!['=']);
    text::lemma_cut_joined(k, '=', id);
    text::lemma_cut_first(t, '=');
    assert("moose_session="@ + id =~= k + seq!['='] + id);
}

proof fn lemma_session_among(pieces: Seq<Seq<char>>, id: Seq<char>)
    ensures
        auth::session_among(pieces) == Some(id) <==> exists|i: int| #[trigger] first_session(pieces, id, i),
    decreases pieces.len(),
{
    if pieces.len() > 0 {
        let rest = pieces.skip(1);
        lemma_session_among(rest, id);
        assert forall|j: int| 0 <= j < rest.len() implies #[trigger] rest[j] == pieces[j + 1] by {}
        let first = text::cut(text::trim(pieces[0]), '=');
        if first matches Some((k, v)) && k == "moose_session"@ {
            let v = first.unwrap().1;
            lemma_one_cookie(pieces[0], v);
            lemma_one_cookie(pieces[0], id);
            if v == id {
                assert(first_session(pieces, id, 0));
            }
            assert forall|i: int| #[trigger] first_session(pieces, id, i) implies v == id by {
                if i > 0 {
                    assert(!is_session(pieces[0], v));
                }
            }
        } else {
            assert forall|other: Seq<char>| !#[trigger] is_session(pieces[0], other) by {
                lemma_one_cookie(pieces[0], other);
            }
            if exists|i: int| #[trigger] first_session(rest, id, i) {
                let i = choose|i: int| #[trigger] first_session(rest, id, i);
                assert forall|j: int, other: Seq<char>| 0 <= j < i + 1 implies !#[trigger] is_session(
                    pieces[j],
                    other,
                ) by {
                    if j > 0 {
                        assert(!is_session(rest[j - 1], other));
                    }
                }
                assert(first_session(pieces, id, i + 1));
            }
            if exists|i: int| #[trigger] first_session(pieces, id, i) {
                let i = choose|i: int| #[trigger] first_session(pieces, id, i);
                assert forall|j: int, other: Seq<char>| 0 <= j < i - 1 implies !#[trigger] is_session(
                    rest[j],
                    other,
                ) by {
                    assert(!is_session(pieces[j + 1], other));
                }
                assert(first_session(rest, id, i - 1));
            }
        }
    }
}

/// The session of a cookie header is the first among its cookies.
pub proof fn law_the_session_is_the_first_cookie_of_that_name(header: Option<&str>, r: Option<String>)
    requires
        call_ensures(auth::session_from_cookies, (header,), r),
    ensures
        header is None ==> r is None,
        header matches Some(h) ==> forall|id: Seq<char>| #[trigger]
            session_is(text::split(h@, ';'), id) <==> (r matches Some(s) && s@ == id),
{
    if let Some(h) = header {
        assert forall|id: Seq<char>| #[trigger] session_is(text::split(h@, ';'), id) <==> (r matches Some(s) && s@
            == id) by {
            lemma_session_among(text::split(h@, ';'), id);
        }
    }
}

// ---------------------------------------------------------------------------
// Admission
// ---------------------------------------------------------------------------

/// Whether a request proves to be somebody's: by a header that is theirs, or, where
/// no header is anybody's, by a session that is theirs.
pub open spec fn proves(guard: Guard, req: Request, who: Who) -> bool {
    let by_header = match req.authorization {
        Some(h) => auth::identified(guard.cfg, Some(h@)),
        None => None,
    };
    ||| by_header == Some(who)
    ||| {
        &&& by_header is None
        &&& req.cookie matches Some(c) && exists|id: Seq<char>, i: int| #[trigger]
            first_session(text::split(c@, ';'), id, i) && guard.sessions@.contains_key(id)
                && guard.sessions@[id]@ == who
    }
}

/// A request is let in just where nothing is configured, or its route is open to
/// all, or it proves to be somebody's; and one that is not the owner's is refused
/// the commands that do more than read. Of those that prove nothing a browser that
/// wants a page is sent to sign in, and any other is refused.
pub proof fn law_only_who_proves_it_is_let_in(guard: &Guard, req: &Request, r: Admission)
    requires
        call_ensures(service::require_auth, (guard, req), r),
    ensures
        ({
            let p = req.path@;
            let free = (guard.cfg.users@.len() == 0 && !guard.cfg.guest && (guard.cfg.token is None
                || guard.cfg.token.unwrap()@.len() == 0)) || p == "/api/heartbeat"@ || p == "/login"@ || p
                == "/logout"@ || p == "/__shim.js"@;
            &&& free ==> r@ == Settled::Admitted(Who::Owner)
            &&& !free ==> forall|who: Who| #[trigger]
                proves(*guard, *req, who) ==> {
                    let cmd = text::after(p, "/invoke/"@);
                    if who is User && cmd is Some && !auth::is_read_only(cmd.unwrap()) {
                        r@ == Settled::Forbidden(cmd.unwrap() + " is the owner's to do"@)
                    } else {
                        r@ == Settled::Admitted(who)
                    }
                }
            &&& !free && (forall|who: Who| !#[trigger] proves(*guard, *req, who)) ==> {
                let page = req.accept is Some && text::has(req.accept.unwrap()@, "text/html"@) && !text::starts(
                    p,
                    "/api/"@,
                );
                if page {
                    r@ is SignIn
                } else {
                    r@ is Unknown
                }
            }
        }),
{
    let who = service::who_is(guard.cfg, guard.sessions@, *req);
    assert forall|w: Who| #[trigger] proves(*guard, *req, w) <==> who == Some(w) by {
        lemma_who(*guard, *req, w);
    }
    if let Some(w) = who {
        assert(proves(*guard, *req, w));
    }
}

proof fn lemma_who(guard: Guard, req: Request, w: Who)
    ensures
        proves(guard, req, w) <==> service::who_is(guard.cfg, guard.sessions@, req) == Some(w),
{
    let by_header = auth::identified(guard.cfg, text::opt_str(req.authorization));
    if by_header is None {
        if let Some(c) = req.cookie {
            let ps = text::split(c@, ';');
            assert forall|id: Seq<char>| #[trigger] session_is(ps, id) <==> auth::session_among(ps) == Some(
                id,
            ) by {
                lemma_session_among(ps, id);
            }
            if service::who_is(guard.cfg, guard.sessions@, req) == Some(w) {
                let id = auth::session_among(ps).unwrap();
                assert(session_is(ps, id));
                let i = choose|i: int| #[trigger] first_session(ps, id, i);
                assert(first_session(ps, id, i));
            }
            if proves(guard, req, w) {
                let (id, i) = choose|id: Seq<char>, i: int| #[trigger]
                    first_session(ps, id, i) && guard.sessions@.contains_key(id) && guard.sessions@[id]@ == w;
                assert(session_is(ps, id));
                assert(auth::session_among(ps) == Some(id));
            }
        }
    }
}

// ---------------------------------------------------------------------------
// Saves
// ---------------------------------------------------------------------------

/// Negotiating is planning, with a session to quote.
pub proof fn law_negotiating_is_planning(
    device: &str,
    client: &Vec<ClientSaveState>,
    server: &Vec<ServerSave>,
    seen: &Seen,
    r: SyncPlan,
    plan: SyncPlan,
)
    requires
        client@.len() + server@.len() <= i64::MAX,
        call_ensures(service::negotiate, (device, client, server, seen), r),
        call_ensures(saves::plan, (device, client, server, seen), plan),
    ensures
        r.session_id == Some(1i64),
        saves::ops(r.operations@) == saves::ops(plan.operations@),
        r.total_upload == plan.total_upload,
        r.total_download == plan.total_download,
        r.total_conflict == plan.total_conflict,
        r.total_no_op == plan.total_no_op,
{
}

/// Whether a save is the first of some with a name.
pub open spec fn first_of_name(held: Seq<ServerSave>, name: Seq<char>, i: int) -> bool {
    &&& 0 <= i < held.len()
    &&& held[i].file_name@ == name
    &&& forall|j: int| 0 <= j < i ==> (#[trigger] held[j]).file_name@ != name
}

proof fn lemma_first_named(held: Seq<ServerSave>, name: Seq<char>)
    ensures
        forall|i: int| #[trigger]
            first_of_name(held, name, i) ==> service::first_named(saves::held(held), name) == Some(held[i]@),
        service::first_named(saves::held(held), name) is None <==> forall|j: int|
            0 <= j < held.len() ==> (#[trigger] held[j]).file_name@ != name,
    decreases held.len(),
{
    let all = saves::held(held);
    if held.len() > 0 {
        assert(all[0] == held[0]@);
        let rest = held.skip(1);
        assert(all.skip(1) =~= saves::held(rest));
        assert forall|j: int| 0 <= j < rest.len() implies #[trigger] rest[j] == held[j + 1] by {}
        lemma_first_named(rest, name);
        if held[0].file_name@ == name {
            assert forall|i: int| #[trigger] first_of_name(held, name, i) implies i == 0 by {
                if i > 0 {
                    assert(held[0].file_name@ != name);
                }
            }
        } else {
            assert forall|i: int| #[trigger] first_of_name(held, name, i) implies service::first_named(all, name)
                == Some(held[i]@) by {
                assert forall|j: int| 0 <= j < i - 1 implies (#[trigger] rest[j]).file_name@ != name by {
                    assert(held[j + 1].file_name@ != name);
                }
                assert(first_of_name(rest, name, i - 1));
            }
            if service::first_named(all, name) is None {
                assert forall|j: int| 0 <= j < held.len() implies (#[trigger] held[j]).file_name@ != name by {
                    if j > 0 {
                        assert(rest[j - 1].file_name@ != name);
                    }
                }
            }
            if forall|j: int| 0 <= j < held.len() ==> (#[trigger] held[j]).file_name@ != name {
                assert forall|j: int| 0 <= j < rest.len() implies (#[trigger] rest[j]).file_name@ != name by {
                    assert(held[j + 1].file_name@ != name);
                }
            }
        }
    }
}

/// An upload without a name is none. One is taken where it is insisted on, where the
/// server holds nothing of that name, or where what it holds is what this device
/// last agreed on for this game and file; and otherwise it is a conflict.
pub proof fn law_an_upload_is_taken_where_nothing_is_lost(
    persisted: &Persisted,
    device: &str,
    rom_id: i64,
    name: &str,
    held: &Vec<ServerSave>,
    overwrite: bool,
    r: Result<(), NotTaken>,
)
    requires
        call_ensures(Persisted::upload, (persisted, device, rom_id, name, held, overwrite), r),
    ensures
        name@.len() == 0 ==> r matches Err(NotTaken::NoFile),
        name@.len() > 0 && overwrite ==> r is Ok,
        name@.len() > 0 && (forall|j: int| 0 <= j < held@.len() ==> (#[trigger] held@[j]).file_name@ != name@)
            ==> r is Ok,
        forall|i: int| #[trigger]
            first_of_name(held@, name@, i) && name@.len() > 0 && !overwrite ==> {
                let key = legacy::key_text(device@, rom_id as int, name@);
                let known = persisted.seen@.contains_key(key);
                let same = match held@[i].content_hash {
                    Some(h) => known && persisted.seen@[key]@ == h@,
                    None => !known,
                };
                if same {
                    r is Ok
                } else {
                    r matches Err(NotTaken::Conflict(_))
                }
            },
{
    lemma_first_named(held@, name@);
}

/// Whether a part is the last that came under a field.
pub open spec fn last_under(parts: Seq<Part>, field: Seq<char>, i: int) -> bool {
    &&& 0 <= i < parts.len()
    &&& parts[i].field matches Some(f) && f@ == field
    &&& forall|j: int| i < j < parts.len() ==> !((#[trigger] parts[j]).field matches Some(f) && f@ == field)
}

proof fn lemma_last_part(parts: Seq<Part>, field: Seq<char>)
    ensures
        forall|i: int| #[trigger]
            last_under(parts, field, i) ==> service::last_part(parts, field) == Some(parts[i]),
        service::last_part(parts, field) is Some ==> exists|i: int| #[trigger] last_under(parts, field, i),
    decreases parts.len(),
{
    if parts.len() > 0 {
        let front = parts.drop_last();
        let n = parts.len() - 1;
        lemma_last_part(front, field);
        let hit = parts[n].field matches Some(f) && f@ == field;
        assert(parts.last() == parts[n]);
        if hit {
            assert(last_under(parts, field, n));
            assert forall|i: int| #[trigger] last_under(parts, field, i) implies i == n by {
                if i < n {
                    assert(!(parts[n].field matches Some(f) && f@ == field));
                }
            }
        } else {
            assert forall|i: int| #[trigger] last_under(parts, field, i) implies last_under(front, field, i) by {
                assert(i < n);
                assert forall|j: int| i < j < front.len() implies !((#[trigger] front[j]).field matches Some(f)
                    && f@ == field) by {
                    assert(parts[j] == front[j]);
                }
            }
            assert forall|i: int| #[trigger] last_under(front, field, i) implies last_under(parts, field, i) by {
                assert(parts[i] == front[i]);
                assert forall|j: int| i < j < parts.len() implies !((#[trigger] parts[j]).field matches Some(f)
                    && f@ == field) by {
                    if j < n {
                        assert(parts[j] == front[j]);
                    }
                }
            }
        }
    }
}

/// The file of an upload is the last part under its field, with the name it came
/// with; where there is none there is no name and there are no bytes.
pub proof fn law_the_last_part_under_a_field_counts(
    parts: &Vec<Part>,
    field: &str,
    unnamed: &str,
    r: (String, Vec<u8>),
)
    requires
        call_ensures(service::file_part, (parts, field, unnamed), r),
    ensures
        forall|i: int| #[trigger]
            last_under(parts@, field@, i) ==> r.1@ == parts@[i].bytes@ && r.0@ == (match parts@[i].file_name {
                Some(n) => n@,
                None => unnamed@,
            }),
        (forall|i: int| !#[trigger] last_under(parts@, field@, i)) ==> r.0@.len() == 0 && r.1@.len() == 0,
{
    lemma_last_part(parts@, field@);
}

// ---------------------------------------------------------------------------
// Passwords
// ---------------------------------------------------------------------------

/// Whether a stored hash is made of these: the scheme, the rounds, and a salt and a
/// key of so many bytes, each coded, with a dollar sign between them.
pub open spec fn is_hash_of(stored: Seq<char>, rounds: u32, salt: Seq<u8>, key: Seq<u8>) -> bool {
    let p = text::split(stored, '$');
    &&& p.len() == 4
    &&& p[0] == "pbkdf2-sha256"@
    &&& rounds > 0 && number::unsigned(p[1]) == Some(rounds as nat)
    &&& crypto::base64_bytes(p[2]) == Some(salt)
    &&& crypto::base64_bytes(p[3]) == Some(key)
    &&& key.len() == 32
}

/// A password is accepted just where the stored hash is one whose whole key is what
/// the password derives with its salt in its rounds; what is stored as anything else
/// accepts none.
pub proof fn law_a_password_is_accepted_where_it_derives_the_key(stored: &str, plain: &str, r: bool)
    requires
        call_ensures(auth::verify_password, (stored, plain), r),
    ensures
        r <==> exists|rounds: u32, salt: Seq<u8>, key: Seq<u8>| #[trigger]
            is_hash_of(stored@, rounds, salt, key) && crypto::pbkdf2_of(
                vstd::utf8::encode_utf8(plain@),
                salt,
                rounds,
            ) == key,
{
    if r {
        let (rounds, s, k) = auth::hash_parts(stored@).unwrap();
        let salt = crypto::base64_bytes(s).unwrap();
        let key = crypto::base64_bytes(k).unwrap();
        assert(is_hash_of(stored@, rounds, salt, key));
    }
}

/// A password that was hashed is accepted against its hash.
pub proof fn law_a_hashed_password_is_accepted(plain: &str, salt: &[u8], h: String, stored: &str, r: bool)
    requires
        call_ensures(auth::hash_with_salt, (plain, salt), h),
        stored@ == h@,
        call_ensures(auth::verify_password, (stored, plain), r),
    ensures
        r,
{
}

/// The shared account is let in just where it is switched on, and a token just where
/// it is the configured one.
pub proof fn law_a_sign_in_is_let_in_by_what_it_gives(
    cfg: &AuthConfig,
    c: &service::Credentials,
    r: Option<Identity>,
)
    requires
        call_ensures(service::sign_in, (cfg, c), r),
    ensures
        c.guest && cfg.guest ==> (r matches Some(i) && i@ == Who::User(auth::GUEST@)),
        c.guest && !cfg.guest ==> r is None,
        !c.guest && c.token@.len() > 0 ==> ((r matches Some(i) && i@ is Owner) <==> (cfg.token matches Some(own)
            && own@.len() > 0 && text::trim(c.token@) == own@)),
        !c.guest && c.token@.len() > 0 ==> !(r matches Some(i) && i@ is User),
        !c.guest && c.token@.len() == 0 ==> !(r matches Some(i) && i@ is Owner),
{
    if !c.guest {
        let h = service::header_of(*c);
        lemma_after(h, "Bearer "@);
        lemma_after(h, "Basic "@);
        lemma_two_heads(h);
        if c.token@.len() > 0 {
            assert(h == "Bearer "@ + c.token@);
        } else {
            let rest = crypto::base64_text(vstd::utf8::encode_utf8(c.username@ + ":"@ + c.password@));
            assert(h == "Basic "@ + rest);
        }
    }
}

} // verus!
