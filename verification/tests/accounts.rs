use base64::Engine;

use moose_rack_core::auth::{
    from_bytes, from_credentials, from_header, hash_password, hash_with_salt, owner_only,
    read_hash, read_only, session_from_cookies, verify_password, AuthConfig, Identity, Sessions,
    User,
};

fn b64() -> base64::engine::general_purpose::GeneralPurpose {
    base64::engine::general_purpose::STANDARD
}

fn cfg() -> AuthConfig {
    AuthConfig {
        token: Some("owner-secret".into()),
        users: vec![User {
            name: "guest".into(),
            password: hash_password("hunter2").unwrap(),
        }],
        guest: false,
    }
}

#[test]
fn a_password_round_trips_and_a_wrong_one_does_not() {
    let h = hash_password("hunter2").unwrap();
    assert!(verify_password(&h, "hunter2"));
    assert!(!verify_password(&h, "hunter3"));
    assert!(!verify_password(&h, ""));
}

#[test]
fn the_salt_makes_every_hash_different() {
    assert_ne!(hash_password("same").unwrap(), hash_password("same").unwrap());
    assert!(hash_password("x").unwrap().starts_with("pbkdf2-sha256$600000$"));
}

#[test]
fn a_malformed_hash_never_verifies() {
    for bad in [
        "",
        "hunter2",
        "pbkdf2-sha256$notanumber$c2FsdA==$a2V5",
        "pbkdf2-sha256$600000$c2FsdA==",
        "pbkdf2-sha256$0$c2FsdA==$a2V5",
        "bcrypt$600000$c2FsdA==$a2V5",
        "pbkdf2-sha256$600000$!!!!$a2V5",
        "pbkdf2-sha256$600000$c2FsdA==$a2V5$extra",
    ] {
        assert!(!verify_password(bad, "hunter2"), "{bad:?} verified");
        assert!(!verify_password(bad, ""), "{bad:?} verified against empty");
    }
}

#[test]
fn a_truncated_hash_does_not_match() {
    let h = hash_password("hunter2").unwrap();
    let mut parts: Vec<&str> = h.split('$').collect();
    let short = b64().encode(&b64().decode(parts[3]).unwrap()[..16]);
    parts[3] = &short;
    assert!(!verify_password(&parts.join("$"), "hunter2"));
}

#[test]
fn a_hash_with_a_given_salt_is_the_same_every_time() {
    let h = hash_with_salt("hunter2", b"saltsaltsaltsalt");
    assert_eq!(h, hash_with_salt("hunter2", b"saltsaltsaltsalt"));
    assert_ne!(h, hash_with_salt("hunter2", b"othersalt"));
    let (iterations, salt, key) = read_hash(&h).unwrap();
    assert_eq!(iterations, 600_000);
    assert_eq!(b64().decode(salt).unwrap(), b"saltsaltsaltsalt");
    assert_eq!(b64().decode(key).unwrap().len(), 32);
}

/// The derivation is PBKDF2 with HMAC-SHA256: its published test value.
#[test]
fn the_derivation_is_the_published_one() {
    let key = "120fb6cffcf8b32c43e7225256c4f837a86548c92ccc35480805987cb70be17b";
    let bytes: Vec<u8> = (0..key.len())
        .step_by(2)
        .map(|i| u8::from_str_radix(&key[i..i + 2], 16).unwrap())
        .collect();
    let stored =
        format!("pbkdf2-sha256$1${}${}", b64().encode("salt"), b64().encode(bytes));
    assert!(verify_password(&stored, "password"));
    assert!(!verify_password(&stored, "Password"));
}

#[test]
fn the_token_identifies_the_owner() {
    let c = cfg();
    assert_eq!(from_header(&c, Some("Bearer owner-secret")), Some(Identity::Owner));
    assert_eq!(from_header(&c, Some("Bearer wrong")), None);
    assert_eq!(from_header(&c, None), None);
    assert_eq!(from_header(&c, Some("owner-secret")), None, "scheme is required");
}

#[test]
fn an_empty_token_is_never_a_match() {
    let c = AuthConfig { token: None, users: vec![], guest: false };
    assert_eq!(from_header(&c, Some("Bearer ")), None);
    assert_eq!(from_header(&c, Some("Bearer  ")), None);
    let c = AuthConfig { token: Some(String::new()), users: vec![], guest: false };
    assert_eq!(from_header(&c, Some("Bearer ")), None);
}

#[test]
fn a_username_and_password_identify_a_user() {
    let c = cfg();
    let ok = format!("Basic {}", b64().encode("guest:hunter2"));
    assert_eq!(from_header(&c, Some(&ok)), Some(Identity::User("guest".into())));
    for bad in ["guest:wrong", "nobody:hunter2", "guest", "guest:"] {
        let h = format!("Basic {}", b64().encode(bad));
        assert_eq!(from_header(&c, Some(&h)), None, "{bad:?} got in");
    }
    assert_eq!(from_header(&c, Some("Basic !!!not-base64")), None);
    assert_eq!(from_credentials(&c, "guest:hunter2"), Some(Identity::User("guest".into())));
    assert_eq!(from_bytes(&c, vec![0xff, 0xfe]), None);
}

#[test]
fn the_two_credentials_do_not_cross_over() {
    let c = cfg();
    let as_pass = format!("Basic {}", b64().encode("guest:owner-secret"));
    assert_eq!(from_header(&c, Some(&as_pass)), None);
    assert_eq!(from_header(&c, Some("Bearer hunter2")), None);
}

#[test]
fn sessions_open_resolve_and_close() {
    let mut s = Sessions::default();
    let id = s.open(Identity::User("guest".into())).unwrap();
    assert_eq!(s.get(&id), Some(Identity::User("guest".into())));
    assert_eq!(s.get("made-up"), None);
    s.close(&id);
    assert_eq!(s.get(&id), None);
    // Two sessions are never the same string.
    assert_ne!(s.open(Identity::Owner).unwrap(), s.open(Identity::Owner).unwrap());
    assert_eq!(s.len(), 2);
}

#[test]
fn a_session_is_named_after_the_bytes_it_was_given() {
    let mut s = Sessions::default();
    let id = s.open_as(&[0, 255, 16], Identity::Owner);
    assert_eq!(id, "AP8Q");
    assert_eq!(s.get("AP8Q"), Some(Identity::Owner));
}

#[test]
fn the_session_cookie_is_found_among_others() {
    let found = |h: Option<&str>| session_from_cookies(h);
    assert_eq!(found(Some("moose_session=abc")).as_deref(), Some("abc"));
    assert_eq!(found(Some("a=1; moose_session=abc; b=2")).as_deref(), Some("abc"));
    assert_eq!(found(Some("other=abc")), None);
    assert_eq!(found(Some("")), None);
    assert_eq!(found(None), None);
}

#[test]
fn the_guest_account_is_offered_only_when_asked_for() {
    let mut c = AuthConfig::default();
    assert!(c.open(), "no guest and no credentials is an open service");
    c.guest = true;
    assert!(!c.open(), "switching the guest on must switch the checking on");
    assert!(c.describe().contains("guest"));
}

#[test]
fn a_guest_may_sync_saves_but_not_change_settings() {
    for allowed in ["sync_saves", "sync_saves_plan", "resolve_save_conflict", "game_states"] {
        assert!(!owner_only(allowed), "{allowed} is shared and should be allowed");
    }
    for denied in ["set_config_field", "install_icon_set", "set_list_art", "delete_state"] {
        assert!(owner_only(denied), "{denied} must stay the owner's");
    }
}

#[test]
fn nothing_configured_means_nothing_checked() {
    assert!(AuthConfig::default().open());
    assert!(AuthConfig { token: Some(String::new()), users: vec![], guest: false }.open());
    assert!(!cfg().open());
    assert!(AuthConfig { token: None, users: cfg().users, guest: false }.open() == false);
}

#[test]
fn reads_are_shared_and_writes_are_the_owners() {
    for r in ["roms", "platforms", "rom_covers", "rom_detail", "search", "status"] {
        assert!(!owner_only(r), "{r} should be readable by a guest");
    }
    for w in [
        "set_config_field",
        "set_icon_set",
        "set_list_art",
        "install_icon_set",
        "fetch_icons",
        "toggle_favorite",
        "delete_state",
        "set_retroarch_root",
        "import_bindings",
        "set_page_names",
    ] {
        assert!(owner_only(w), "{w} must be owner-only");
    }
}

#[test]
fn an_unclassified_command_is_refused_not_exposed() {
    assert!(owner_only("something_new"));
    assert!(owner_only(""));
    assert!(read_only("roms"));
    assert!(!read_only("something_new"));
}

#[test]
fn an_identity_says_who_it_is() {
    assert!(Identity::Owner.is_owner());
    assert_eq!(Identity::Owner.name(), "owner");
    let u = Identity::User("sam".into());
    assert!(!u.is_owner());
    assert_eq!(u.name(), "sam");
    assert_eq!(u.copy(), u);
}

#[test]
fn closing_a_session_leaves_one_fewer() {
    let mut s = Sessions::default();
    let a = s.open_as(&[1], Identity::Owner);
    let b = s.open_as(&[2], Identity::User("guest".into()));
    assert_eq!(s.len(), 2);
    s.close("made-up");
    assert_eq!(s.len(), 2);
    s.close(&a);
    assert_eq!(s.len(), 1);
    assert_eq!(s.get(&b), Some(Identity::User("guest".into())));
    s.close(&b);
    assert_eq!(s.len(), 0);
}
