use typing_prac::accounts::{AccountsDb, AuthState, LOCKOUT_MS, MAX_FAILED_LOGINS};
use typing_prac::auth::{account_key, trim};
use typing_prac::model::{GenerateRequest, SessionRecord, Settings};
use typing_prac::storage::recover_accounts;
use typing_prac::strmap::StrMap;

fn refusal<T>(r: Result<T, String>) -> String {
    match r {
        Ok(_) => panic!("expected a refusal"),
        Err(e) => e,
    }
}

fn record(pairs: &[&str]) -> SessionRecord {
    SessionRecord {
        timestamp_ms: 7,
        mode: "mixed".into(),
        pairs: pairs.iter().map(|p| p.to_string()).collect(),
        wpm_bits: 42.5f64.to_bits(),
        accuracy_bits: 97.0f64.to_bits(),
        duration_ms: 60_000,
        correct: 300,
        errors: 12,
        key_errors: StrMap::new(),
        transition_errors: StrMap::new(),
        transition_counts: StrMap::new(),
        key_timings: StrMap::new(),
        transition_timings: StrMap::new(),
    }
}

#[test]
fn account_keys_ignore_ascii_case() {
    assert_eq!(account_key("Alice_01"), "alice_01");
    assert_eq!(account_key("BOB-x"), "bob-x");
    assert_eq!(account_key("already"), "already");
}

#[test]
fn nothing_is_served_without_sign_in() {
    let mut state = AuthState::new(AccountsDb::default());
    let status = state.status();
    assert!(!status.has_accounts);
    assert!(status.active_username.is_none());
    assert_eq!(refusal(state.active_data()), "Sign in required");
    assert_eq!(refusal(state.save_settings(Settings::default())), "Sign in required");
    assert_eq!(refusal(state.record_session(record(&["fj"]))), "Sign in required");
    let req = GenerateRequest {
        pairs: vec!["fj".into()],
        mode: "standalone".into(),
        length: "short".into(),
        seed: Some(1),
        adaptive: false,
    };
    assert_eq!(refusal(state.generate_session(&req)), "Sign in required");
}

#[test]
fn profiles_are_created_trimmed_and_unique() {
    let mut state = AuthState::new(AccountsDb::default());
    assert_eq!(
        refusal(state.create_account("../bad", "long-enough")),
        "Username must be 3–32 letters, numbers, hyphens, or underscores"
    );
    assert_eq!(refusal(state.create_account("carol", "short")), "Password must be 8–128 characters");
    let key = state.create_account("  Carol  ", "long-enough").unwrap();
    assert_eq!(key, "carol");
    assert!(state.active.is_none());
    assert!(state.status().has_accounts);
    assert_eq!(state.db.accounts.get("carol").unwrap().username, "Carol");
    assert_eq!(
        refusal(state.create_account("CAROL", "another-one")),
        "That username is already in use"
    );
    assert_eq!(state.db.accounts.len(), 1);
    state.discard_account("carol");
    assert!(state.db.accounts.is_empty());
}

#[test]
fn signing_in_serves_and_updates_the_profile() {
    let mut state = AuthState::new(AccountsDb::default());
    state.create_account("dave", "long-enough").unwrap();
    state.login("  DAVE ", "long-enough", 1_000).unwrap();
    assert_eq!(state.active.as_deref(), Some("dave"));
    assert_eq!(state.status().active_username.as_deref(), Some("dave"));
    assert_eq!(state.active_data().unwrap().sessions_completed, 0);

    let mut settings = Settings::default();
    settings.theme = "light".into();
    settings.font_size = 20;
    state.save_settings(settings).unwrap();
    assert_eq!(state.active_data().unwrap().settings.theme, "light");
    assert_eq!(state.active_data().unwrap().settings.font_size, 20);

    state.record_session(record(&["fj", "dk"])).unwrap();
    let data = state.active_data().unwrap();
    assert_eq!(data.sessions_completed, 1);
    assert_eq!(data.total_practice_ms, 60_000);
    assert_eq!(data.total_correct, 300);
    assert_eq!(data.total_errors, 12);
    assert_eq!(data.pair_stats.get("dk").unwrap().typed, 312);
    assert_eq!(data.recent_sessions.len(), 1);
    assert_eq!(f64::from_bits(data.recent_sessions[0].wpm_bits), 42.5);
    assert_eq!(data.settings.theme, "light");

    let req = GenerateRequest {
        pairs: vec!["fj".into(), "dk".into()],
        mode: "mixed".into(),
        length: "short".into(),
        seed: Some(5),
        adaptive: true,
    };
    let plan = state.generate_session(&req).unwrap();
    assert_eq!(plan.sections.len(), 6);

    state.logout();
    assert!(state.active.is_none());
    assert_eq!(refusal(state.active_data()), "Sign in required");
}

#[test]
fn five_failed_sign_ins_pause_sign_in() {
    let mut state = AuthState::new(AccountsDb::default());
    state.create_account("erin", "long-enough").unwrap();
    for i in 0..(MAX_FAILED_LOGINS as u64 - 1) {
        assert_eq!(
            refusal(state.login("nobody", "whatever-pw", 1_000 + i)),
            "Invalid username or password"
        );
        assert_eq!(state.failed_logins as u64, i + 1);
        assert!(state.retry_after_ms.is_none());
    }
    assert_eq!(
        refusal(state.login("nobody", "whatever-pw", 2_000)),
        "Invalid username or password"
    );
    assert_eq!(state.failed_logins, 0);
    assert_eq!(state.retry_after_ms, Some(2_000 + LOCKOUT_MS));
    assert_eq!(
        refusal(state.login("erin", "long-enough", 2_000 + LOCKOUT_MS - 1)),
        "Too many attempts. Try again shortly"
    );
    assert!(state.active.is_none());
    state.login("erin", "long-enough", 2_000 + LOCKOUT_MS).unwrap();
    assert_eq!(state.active.as_deref(), Some("erin"));
    assert_eq!(state.failed_logins, 0);
    assert!(state.retry_after_ms.is_none());
}

#[test]
fn stored_profiles_fall_back_to_the_backup() {
    let mut primary = AccountsDb::default();
    primary.accounts.insert(
        "p".into(),
        typing_prac::accounts::Account {
            username: "p".into(),
            password_hash: String::new(),
            data: Default::default(),
        },
    );
    let mut backup = AccountsDb::default();
    backup.accounts.insert(
        "b".into(),
        typing_prac::accounts::Account {
            username: "b".into(),
            password_hash: String::new(),
            data: Default::default(),
        },
    );
    match recover_accounts(false, false, None, None) {
        Ok(db) => assert!(db.accounts.is_empty()),
        Err(_) => panic!("a first start has no profiles"),
    }
    match recover_accounts(true, true, Some(primary), Some(backup)) {
        Ok(db) => assert!(db.accounts.contains_key("p")),
        Err(_) => panic!("the readable file is used"),
    }
    let mut backup = AccountsDb::default();
    backup.accounts.insert(
        "b".into(),
        typing_prac::accounts::Account {
            username: "b".into(),
            password_hash: String::new(),
            data: Default::default(),
        },
    );
    match recover_accounts(true, true, None, Some(backup)) {
        Ok(db) => assert!(db.accounts.contains_key("b")),
        Err(_) => panic!("the backup is used"),
    }
    match recover_accounts(true, false, None, None) {
        Ok(_) => panic!("nothing readable"),
        Err(e) => assert_eq!(e, "Local account data is damaged"),
    }
}

#[test]
fn a_new_profile_is_signed_in_only_once_saved() {
    let mut state = AuthState::new(AccountsDb::default());
    let key = state.create_account("frank", "long-enough").unwrap();
    assert_eq!(
        refusal(state.settle_account(key, Err("disk full".into()))),
        "disk full"
    );
    assert!(state.db.accounts.is_empty());
    assert!(state.active.is_none());
    let key = state.create_account("frank", "long-enough").unwrap();
    let data = state.settle_account(key, Ok(())).unwrap();
    assert_eq!(data.sessions_completed, 0);
    assert_eq!(data.settings.theme, "dark");
    assert_eq!(state.active.as_deref(), Some("frank"));
}

#[test]
fn sign_in_returns_the_profile_data() {
    let mut state = AuthState::new(AccountsDb::default());
    state.create_account("gina", "long-enough").unwrap();
    state.login("gina", "long-enough", 10).unwrap();
    state.record_session(record(&["fj"])).unwrap();
    state.logout();
    let data = state.login(" GINA ", "long-enough", 20).unwrap();
    assert_eq!(data.sessions_completed, 1);
    assert_eq!(data.total_correct, 300);
    let after = state.record_session(record(&["fj"])).unwrap();
    assert_eq!(after.sessions_completed, 2);
}

#[test]
fn a_profile_is_stored_only_with_a_hash() {
    let mut state = AuthState::new(AccountsDb::default());
    assert_eq!(
        refusal(state.store_account("hal".into(), "Hal", Err("Could not secure the password".into()))),
        "Could not secure the password"
    );
    assert!(state.db.accounts.is_empty());
    let key = state.store_account("hal".into(), "Hal", Ok("$argon2id$stub".into())).unwrap();
    assert_eq!(key, "hal");
    let account = state.db.accounts.get("hal").unwrap();
    assert_eq!(account.username, "Hal");
    assert_eq!(account.password_hash, "$argon2id$stub");
    assert_eq!(account.data.sessions_completed, 0);
    assert!(state.active.is_none());
}

#[test]
fn trimming_removes_unicode_white_space_at_both_ends() {
    assert_eq!(trim("\u{3000} al ice\t\n"), "al ice");
    assert_eq!(trim("   "), "");
    assert_eq!(trim("x"), "x");
    assert_eq!(trim("\u{2003}x\u{85}"), "x");
}
