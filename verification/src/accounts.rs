use vstd::prelude::*;
use crate::auth::{
    account_key, argon2_accepts, stored_hash_shape, ascii_lowercase, hash_password,
    password_message, password_ok, trim, trimmed, username_message, username_ok,
    validate_credentials, verify_password,
};
use crate::generator::{generate, generated, selection_fits, stats_too_large};
use crate::model::{absorb_fits, absorbed, fresh_data, AppData, GenerateRequest, SessionPlan, SessionRecord, Settings};
use crate::strmap::StrMap;

verus! {

/// A local profile: its name, its password hash and its data.
pub struct Account {
    pub username: String,
    pub password_hash: String,
    pub data: AppData,
}

/// All profiles, by account key.
pub struct AccountsDb {
    pub accounts: StrMap<Account>,
}

impl Default for AccountsDb {
    fn default() -> (db: Self)
        ensures
            db.accounts@ == Map::<Seq<char>, Account>::empty(),
    {
        AccountsDb { accounts: StrMap::new() }
    }
}

/// What the start screen shows: whether any profile exists and who is signed in.
pub struct AccountStatus {
    pub has_accounts: bool,
    pub active_username: Option<String>,
}

/// Failed sign-ins in a row before sign-in is paused.
pub const MAX_FAILED_LOGINS: u8 = 5;

/// How long sign-in is paused, in milliseconds.
pub const LOCKOUT_MS: u64 = 5000;

/// The sign-in state: profiles, the signed-in account key, and the failure
/// counter with the time (in milliseconds of a monotonic clock) until which
/// sign-in is paused.
pub struct AuthState {
    pub db: AccountsDb,
    pub active: Option<String>,
    pub failed_logins: u8,
    pub retry_after_ms: Option<u64>,
}

/// Sign-in is paused at time `now`.
pub open spec fn locked(retry_after: Option<u64>, now: u64) -> bool {
    retry_after matches Some(until) && now < until
}

/// The failure counter and pause after a failed sign-in at `now`: the counter
/// grows (saturating) and, on reaching the limit, resets and pauses sign-in.
pub open spec fn after_failure(failed: u8, retry_after: Option<u64>, now: u64) -> (u8, Option<u64>) {
    let f = if failed < u8::MAX {
        (failed + 1) as u8
    } else {
        u8::MAX
    };
    if f >= MAX_FAILED_LOGINS {
        (0, Some((now + LOCKOUT_MS) as u64))
    } else {
        (f, retry_after)
    }
}

/// The account signed in, if the key names one.
pub open spec fn active_account(s: AuthState) -> Option<Account> {
    match s.active {
        Some(k) => if s.db.accounts@.contains_key(k@) {
            Some(s.db.accounts@[k@])
        } else {
            None
        },
        None => None,
    }
}

/// `r` is a refusal with message `m`.
pub open spec fn refused<T>(r: Result<T, String>, m: Seq<char>) -> bool {
    r matches Err(e) && e@ == m
}

/// `a` names the account key `k`.
pub open spec fn names_key(a: Option<String>, k: Seq<char>) -> bool {
    a matches Some(x) && x@ == k
}

/// The account key signed in (empty when nobody is).
pub open spec fn key_of(s: AuthState) -> Seq<char> {
    match s.active {
        Some(k) => k@,
        None => Seq::empty(),
    }
}

/// The refusal when nobody is signed in.
pub open spec fn sign_in_required() -> Seq<char> {
    "Sign in required"@
}

/// The refusal of a username that is taken.
pub open spec fn username_taken() -> Seq<char> {
    "That username is already in use"@
}

/// The refusal of a wrong username or password.
pub open spec fn invalid_credentials() -> Seq<char> {
    "Invalid username or password"@
}

/// The refusal while sign-in is paused.
pub open spec fn too_many_attempts() -> Seq<char> {
    "Too many attempts. Try again shortly"@
}

/// Whether signing in as `username` (trimmed, ASCII case ignored) with
/// `password` is accepted in state `s`.
pub open spec fn login_accepted(s: AuthState, username: Seq<char>, password: Seq<char>) -> bool {
    let key = ascii_lowercase(trimmed(username));
    s.db.accounts@.contains_key(key) && argon2_accepts(password, s.db.accounts@[key].password_hash@)
}

impl AuthState {
    /// A state with the given profiles, nobody signed in, no failures.
    pub fn new(db: AccountsDb) -> (s: Self)
        ensures
            s.db == db,
            s.active is None,
            s.failed_logins == 0,
            s.retry_after_ms is None,
    {
        AuthState { db, active: None, failed_logins: 0, retry_after_ms: None }
    }

    /// Whether profiles exist, and the name of the signed-in profile.
    pub fn status(&self) -> (st: AccountStatus)
        ensures
            st.has_accounts == (self.db.accounts@.dom() != Set::<Seq<char>>::empty()),
            match active_account(*self) {
                Some(a) => names_key(st.active_username, a.username@),
                None => st.active_username is None,
            },
    {
        let has_accounts = !self.db.accounts.is_empty();
        let active_username = match &self.active {
            Some(key) => match self.db.accounts.get(key.as_str()) {
                Some(a) => Some(a.username.clone()),
                None => None,
            },
            None => None,
        };
        AccountStatus { has_accounts, active_username }
    }

    /// The data of the signed-in profile.
    pub fn active_data(&self) -> (r: Result<&AppData, String>)
        ensures
            match active_account(*self) {
                Some(a) => (r matches Ok(d) && *d == a.data),
                None => refused(r, sign_in_required()),
            },
    {
        match &self.active {
            Some(key) => match self.db.accounts.get(key.as_str()) {
                Some(a) => Ok(&a.data),
                None => Err(String::from_str("Sign in required")),
            },
            None => Err(String::from_str("Sign in required")),
        }
    }

    /// Adds a profile for an already trimmed username: checks the rules and
    /// that the key is free, hashes the password, and stores a fresh profile.
    /// Returns the new account key; nobody is signed in by this.
    pub fn register(&mut self, username: &str, password: &str) -> (r: Result<String, String>)
        ensures
            final(self).active == old(self).active,
            final(self).failed_logins == old(self).failed_logins,
            final(self).retry_after_ms == old(self).retry_after_ms,
            !username_ok(username@) ==> refused(r, username_message()),
            username_ok(username@) && !password_ok(password@) ==> refused(r, password_message()),
            username_ok(username@) && password_ok(password@) && old(self).db.accounts@.contains_key(
                ascii_lowercase(username@),
            ) ==> refused(r, username_taken()),
            username_ok(username@) && password_ok(password@) && !old(self).db.accounts@.contains_key(ascii_lowercase(username@)) ==> r is Ok,
            r is Err ==> final(self).db.accounts@ == old(self).db.accounts@,
            r matches Ok(key) ==> {
                &&& key@ == ascii_lowercase(username@)
                &&& final(self).db.accounts@.dom() == old(self).db.accounts@.dom().insert(key@)
                &&& forall|k: Seq<char>| #[trigger]
                    old(self).db.accounts@.contains_key(k) ==> final(self).db.accounts@[k] == old(self).db.accounts@[k]
                &&& final(self).db.accounts@[key@].username@ == username@
                &&& argon2_accepts(password@, final(self).db.accounts@[key@].password_hash@)
                &&& stored_hash_shape(final(self).db.accounts@[key@].password_hash@)
                &&& fresh_data(final(self).db.accounts@[key@].data)
            },
    {
        match validate_credentials(username, password) {
            Ok(()) => {},
            Err(e) => {
                return Err(e);
            },
        }
        let key = account_key(username);
        if self.db.accounts.contains_key(key.as_str()) {
            return Err(String::from_str("That username is already in use"));
        }
        let hashed = hash_password(password);
        self.store_account(key, username, hashed)
    }

    /// Stores a fresh profile under `key` once hashing its password was
    /// tried: with a hash, the profile (named `username`, with that hash and
    /// fresh data) is stored and the key returned; with an error, nothing is
    /// stored and the error is returned.
    pub fn store_account(&mut self, key: String, username: &str, hashed: Result<String, String>) -> (r:
        Result<String, String>)
        ensures
            final(self).active == old(self).active,
            final(self).failed_logins == old(self).failed_logins,
            final(self).retry_after_ms == old(self).retry_after_ms,
            hashed matches Err(e) ==> r == Err::<String, String>(e) && final(self).db.accounts@
                == old(self).db.accounts@,
            hashed matches Ok(h) ==> {
                &&& r == Ok::<String, String>(key)
                &&& final(self).db.accounts@.dom() == old(self).db.accounts@.dom().insert(key@)
                &&& forall|k: Seq<char>| #[trigger]
                    old(self).db.accounts@.contains_key(k) && k != key@ ==> final(self).db.accounts@[k]
                        == old(self).db.accounts@[k]
                &&& final(self).db.accounts@[key@].username@ == username@
                &&& final(self).db.accounts@[key@].password_hash == h
                &&& fresh_data(final(self).db.accounts@[key@].data)
            },
    {
        match hashed {
            Ok(password_hash) => {
                let account = Account {
                    username: String::from_str(username),
                    password_hash,
                    data: AppData::default(),
                };
                self.db.accounts.insert(key.clone(), account);
                Ok(key)
            },
            Err(e) => Err(e),
        }
    }

    /// Adds a profile: the username is trimmed first (see `register`).
    pub fn create_account(&mut self, username: &str, password: &str) -> (r: Result<String, String>)
        ensures
            final(self).active == old(self).active,
            final(self).failed_logins == old(self).failed_logins,
            final(self).retry_after_ms == old(self).retry_after_ms,
            !username_ok(trimmed(username@)) ==> refused(r, username_message()),
            username_ok(trimmed(username@)) && !password_ok(password@) ==> refused(
                r,
                password_message(),
            ),
            username_ok(trimmed(username@)) && password_ok(password@)
                && old(self).db.accounts@.contains_key(ascii_lowercase(trimmed(username@)))
                ==> refused(r, username_taken()),
            username_ok(trimmed(username@)) && password_ok(password@)
                && !old(self).db.accounts@.contains_key(ascii_lowercase(trimmed(username@)))
                ==> r is Ok,
            r is Err ==> final(self).db.accounts@ == old(self).db.accounts@,
            r matches Ok(key) ==> {
                &&& key@ == ascii_lowercase(trimmed(username@))
                &&& final(self).db.accounts@.dom() == old(self).db.accounts@.dom().insert(key@)
                &&& forall|k: Seq<char>| #[trigger]
                    old(self).db.accounts@.contains_key(k) ==> final(self).db.accounts@[k] == old(self).db.accounts@[k]
                &&& final(self).db.accounts@[key@].username@ == trimmed(username@)
                &&& argon2_accepts(password@, final(self).db.accounts@[key@].password_hash@)
                &&& stored_hash_shape(final(self).db.accounts@[key@].password_hash@)
                &&& fresh_data(final(self).db.accounts@[key@].data)
            },
    {
        let name = trim(username);
        self.register(name.as_str(), password)
    }

    /// Finishes adding the profile stored under `key` once saving the profiles
    /// was tried: when the save succeeded the profile is signed in and its
    /// data returned; when it failed the profile is dropped again and the
    /// save's error returned.
    pub fn settle_account(&mut self, key: String, saved: Result<(), String>) -> (r: Result<&AppData, String>)
        ensures
            final(self).failed_logins == old(self).failed_logins,
            final(self).retry_after_ms == old(self).retry_after_ms,
            saved is Ok ==> {
                &&& final(self).db == old(self).db
                &&& final(self).active == Some(key)
                &&& match active_account(*final(self)) {
                    Some(a) => (r matches Ok(d) && *d == a.data),
                    None => refused(r, sign_in_required()),
                }
            },
            saved matches Err(e) ==> {
                &&& r == Err::<&AppData, String>(e)
                &&& final(self).db.accounts@ == old(self).db.accounts@.remove(key@)
                &&& final(self).active == old(self).active
            },
    {
        match saved {
            Ok(()) => {
                self.active = Some(key);
                self.active_data()
            },
            Err(e) => {
                self.db.accounts.remove(key.as_str());
                Err(e)
            },
        }
    }

    /// Drops the profile stored under `key` (when storing it failed).
    pub fn discard_account(&mut self, key: &str)
        ensures
            final(self).db.accounts@ == old(self).db.accounts@.remove(key@),
            final(self).active == old(self).active,
            final(self).failed_logins == old(self).failed_logins,
            final(self).retry_after_ms == old(self).retry_after_ms,
    {
        self.db.accounts.remove(key);
    }


    /// Signs in with an already trimmed username at time `now_ms`.  While
    /// sign-in is paused every attempt is refused and nothing changes.  A
    /// wrong username or password counts as a failure; the fifth failure in a
    /// row pauses sign-in for `LOCKOUT_MS`.  Success clears the failures and
    /// the pause and signs the profile in.
    pub fn sign_in(&mut self, username: &str, password: &str, now_ms: u64) -> (r: Result<(), String>)
        requires
            now_ms + LOCKOUT_MS <= u64::MAX,
        ensures
            final(self).db == old(self).db,
            locked(old(self).retry_after_ms, now_ms) ==> {
                &&& refused(r, too_many_attempts())
                &&& final(self).active == old(self).active
                &&& final(self).failed_logins == old(self).failed_logins
                &&& final(self).retry_after_ms == old(self).retry_after_ms
            },
            !locked(old(self).retry_after_ms, now_ms) ==> {
                let key = ascii_lowercase(username@);
                let accepted = old(self).db.accounts@.contains_key(key) && argon2_accepts(
                    password@,
                    old(self).db.accounts@[key].password_hash@,
                );
                &&& accepted ==> r is Ok && names_key(final(self).active, key)
                    && final(self).failed_logins == 0 && final(self).retry_after_ms is None
                &&& !accepted ==> refused(r, invalid_credentials()) && final(self).active == old(self).active && (final(self).failed_logins, final(self).retry_after_ms) == after_failure(
                    old(self).failed_logins,
                    old(self).retry_after_ms,
                    now_ms,
                )
            },
    {
        let key = account_key(username);
        let paused = match self.retry_after_ms {
            Some(until) => now_ms < until,
            None => false,
        };
        if paused {
            return Err(String::from_str("Too many attempts. Try again shortly"));
        }
        let valid = match self.db.accounts.get(key.as_str()) {
            Some(account) => verify_password(password, account.password_hash.as_str()),
            None => false,
        };
        if !valid {
            self.failed_logins = if self.failed_logins < u8::MAX {
                self.failed_logins + 1
            } else {
                u8::MAX
            };
            if self.failed_logins >= MAX_FAILED_LOGINS {
                self.retry_after_ms = Some(now_ms + LOCKOUT_MS);
                self.failed_logins = 0;
            }
            return Err(String::from_str("Invalid username or password"));
        }
        self.failed_logins = 0;
        self.retry_after_ms = None;
        self.active = Some(key);
        Ok(())
    }

    /// Signs in: the username is trimmed first (see `sign_in`); on success the
    /// data of the profile signed in is returned.
    pub fn login(&mut self, username: &str, password: &str, now_ms: u64) -> (r: Result<&AppData, String>)
        requires
            now_ms + LOCKOUT_MS <= u64::MAX,
        ensures
            final(self).db == old(self).db,
            locked(old(self).retry_after_ms, now_ms) ==> {
                &&& refused(r, too_many_attempts())
                &&& final(self).active == old(self).active
                &&& final(self).failed_logins == old(self).failed_logins
                &&& final(self).retry_after_ms == old(self).retry_after_ms
            },
            !locked(old(self).retry_after_ms, now_ms) ==> {
                let key = ascii_lowercase(trimmed(username@));
                let accepted = login_accepted(*old(self), username@, password@);
                &&& accepted ==> (r matches Ok(d) && *d == old(self).db.accounts@[key].data)
                    && names_key(final(self).active, key)
                    && active_account(*final(self)) == Some(old(self).db.accounts@[key])
                    && final(self).failed_logins == 0 && final(self).retry_after_ms is None
                &&& !accepted ==> refused(r, invalid_credentials()) && final(self).active == old(self).active && (final(self).failed_logins, final(self).retry_after_ms) == after_failure(
                    old(self).failed_logins,
                    old(self).retry_after_ms,
                    now_ms,
                )
            },
    {
        let name = trim(username);
        match self.sign_in(name.as_str(), password, now_ms) {
            Ok(()) => {},
            Err(e) => {
                return Err(e);
            },
        }
        self.active_data()
    }

    /// Signs out.
    pub fn logout(&mut self)
        ensures
            final(self).active is None,
            final(self).db == old(self).db,
            final(self).failed_logins == old(self).failed_logins,
            final(self).retry_after_ms == old(self).retry_after_ms,
    {
        self.active = None;
    }

    /// Replaces the settings of the signed-in profile.
    pub fn save_settings(&mut self, settings: Settings) -> (r: Result<(), String>)
        ensures
            final(self).active == old(self).active,
            final(self).failed_logins == old(self).failed_logins,
            final(self).retry_after_ms == old(self).retry_after_ms,
            match active_account(*old(self)) {
                None => refused(r, sign_in_required()) && final(self).db.accounts@ == old(self).db.accounts@,
                Some(a) => {
                    let k = key_of(*old(self));
                    let b = final(self).db.accounts@[k];
                    &&& r is Ok
                    &&& final(self).db.accounts@.dom() == old(self).db.accounts@.dom()
                    &&& forall|q: Seq<char>| #[trigger]
                        old(self).db.accounts@.contains_key(q) && q != k
                            ==> final(self).db.accounts@[q] == old(self).db.accounts@[q]
                    &&& b.username == a.username
                    &&& b.password_hash == a.password_hash
                    &&& b.data.settings == settings
                    &&& b.data.sessions_completed == a.data.sessions_completed
                    &&& b.data.total_practice_ms == a.data.total_practice_ms
                    &&& b.data.total_correct == a.data.total_correct
                    &&& b.data.total_errors == a.data.total_errors
                    &&& b.data.pair_stats == a.data.pair_stats
                    &&& b.data.key_errors == a.data.key_errors
                    &&& b.data.transition_errors == a.data.transition_errors
                    &&& b.data.transition_counts == a.data.transition_counts
                    &&& b.data.key_timings == a.data.key_timings
                    &&& b.data.transition_timings == a.data.transition_timings
                    &&& b.data.recent_sessions == a.data.recent_sessions
                },
            },
    {
        let key = match &self.active {
            Some(k) => k.clone(),
            None => {
                return Err(String::from_str("Sign in required"));
            },
        };
        match self.db.accounts.take(key.as_str()) {
            Some(account) => {
                let mut account = account;
                account.data.settings = settings;
                self.db.accounts.insert(key, account);
                Ok(())
            },
            None => Err(String::from_str("Sign in required")),
        }
    }

    /// Adds a finished session to the statistics of the signed-in profile and
    /// returns the profile's data as it now stands.
    pub fn record_session(&mut self, record: SessionRecord) -> (r: Result<&AppData, String>)
        requires
            active_account(*old(self)) matches Some(a) ==> absorb_fits(a.data, record),
        ensures
            final(self).active == old(self).active,
            final(self).failed_logins == old(self).failed_logins,
            final(self).retry_after_ms == old(self).retry_after_ms,
            match active_account(*old(self)) {
                None => refused(r, sign_in_required()) && final(self).db.accounts@ == old(self).db.accounts@,
                Some(a) => {
                    let k = key_of(*old(self));
                    let b = final(self).db.accounts@[k];
                    &&& r matches Ok(d) && *d == b.data
                    &&& final(self).db.accounts@.dom() == old(self).db.accounts@.dom()
                    &&& forall|q: Seq<char>| #[trigger]
                        old(self).db.accounts@.contains_key(q) && q != k
                            ==> final(self).db.accounts@[q] == old(self).db.accounts@[q]
                    &&& b.username == a.username
                    &&& b.password_hash == a.password_hash
                    &&& absorbed(a.data, b.data, record)
                },
            },
    {
        let key = match &self.active {
            Some(k) => k.clone(),
            None => {
                return Err(String::from_str("Sign in required"));
            },
        };
        match self.db.accounts.take(key.as_str()) {
            Some(account) => {
                let mut account = account;
                account.data.absorb(record);
                self.db.accounts.insert(key.clone(), account);
                match self.db.accounts.get(key.as_str()) {
                    Some(a) => Ok(&a.data),
                    None => Err(String::from_str("Sign in required")),
                }
            },
            None => Err(String::from_str("Sign in required")),
        }
    }

    /// Generates a session for the signed-in profile.
    pub fn generate_session(&self, req: &GenerateRequest) -> (r: Result<SessionPlan, String>)
        ensures
            match active_account(*self) {
                None => refused(r, sign_in_required()),
                Some(a) => if !selection_fits(*req, a.data) {
                    refused(r, stats_too_large())
                } else {
                    match req.seed {
                        Some(seed) => generated(r, *req, a.data, seed),
                        None => exists|seed: u64| generated(r, *req, a.data, seed),
                    }
                },
            },
    {
        let data = match self.active_data() {
            Ok(d) => d,
            Err(e) => {
                return Err(e);
            },
        };
        generate(req, data)
    }
}


/// Law: starting with no failures and no pause, five failed sign-ins in a row
/// (at times `t1` to `t5`, none of them paused) reset the counter and pause
/// sign-in: every attempt from `t5` until `LOCKOUT_MS` later is refused.
pub proof fn lemma_five_failures_pause(t1: u64, t2: u64, t3: u64, t4: u64, t5: u64, later: u64)
    requires
        t5 + LOCKOUT_MS <= u64::MAX,
        t5 <= later < t5 + LOCKOUT_MS,
    ensures
        ({
            let s1 = after_failure(0, None, t1);
            let s2 = after_failure(s1.0, s1.1, t2);
            let s3 = after_failure(s2.0, s2.1, t3);
            let s4 = after_failure(s3.0, s3.1, t4);
            let s5 = after_failure(s4.0, s4.1, t5);
            &&& !locked(s1.1, t2) && !locked(s2.1, t3) && !locked(s3.1, t4) && !locked(s4.1, t5)
            &&& s5.0 == 0
            &&& locked(s5.1, later)
        }),
{
}

/// Law: fewer than five failures in a row never pause sign-in.
pub proof fn lemma_failures_below_limit(failed: u8, retry_after: Option<u64>, now: u64)
    requires
        failed + 1 < MAX_FAILED_LOGINS,
    ensures
        after_failure(failed, retry_after, now) == ((failed + 1) as u8, retry_after),
{
}


/// Law (a refusal does not tell a missing profile from a wrong password): two
/// states alike but for their profiles, one without the username and one
/// whose stored hash does not accept the password, both refuse the sign-in,
/// and the refusal leaves them with the same signed-in key, failure count
/// and pause.
pub proof fn lemma_refusals_alike(
    s1: AuthState,
    s2: AuthState,
    username: Seq<char>,
    password: Seq<char>,
    now: u64,
)
    requires
        s1.active == s2.active,
        s1.failed_logins == s2.failed_logins,
        s1.retry_after_ms == s2.retry_after_ms,
        !s1.db.accounts@.contains_key(ascii_lowercase(trimmed(username))),
        s2.db.accounts@.contains_key(ascii_lowercase(trimmed(username))),
        !argon2_accepts(password, s2.db.accounts@[ascii_lowercase(trimmed(username))].password_hash@),
    ensures
        !login_accepted(s1, username, password),
        !login_accepted(s2, username, password),
        after_failure(s1.failed_logins, s1.retry_after_ms, now) == after_failure(
            s2.failed_logins,
            s2.retry_after_ms,
            now,
        ),
{
}
} // verus!
