//! The session directory: every live session by key, with the time each
//! was last used, and the periodic sweep that evicts idle ones.
//!
//! Time is passed in by the caller as whole seconds on a clock that does not
//! go back.

use vstd::prelude::*;
use vstd::string::StringExecFns;

use crate::error::ServiceError;
use crate::keyed::{kept, KeyedList};
use crate::session::Session;

verus! {

/// Settings of the service.
pub struct Config {
    pub client_id: String,
    pub client_secret: String,
    pub redirect_uri: String,
    pub pkg_path: String,
    pub port: Option<u16>,
    /// Seconds of inactivity after which a session is evicted.
    pub session_timeout: u64,
    /// Seconds between two sweeps.
    pub sweep_interval: u64,
}

/// A session is idle when more than `threshold` seconds passed since its
/// last use.
pub open spec fn idle(last_activity: u64, now: u64, threshold: u64) -> bool {
    now - last_activity > threshold
}

/// The last-use times that remain after a sweep at `now`.
pub open spec fn swept(activity: Map<Seq<char>, u64>, now: u64, threshold: u64) -> Map<
    Seq<char>,
    u64,
> {
    Map::new(
        |k: Seq<char>| activity.contains_key(k) && !idle(activity[k], now, threshold),
        |k: Seq<char>| activity[k],
    )
}

/// The percent-encoding of a text: every byte of its UTF-8 form but ASCII
/// letters, digits and `-`, `_`, `.`, `~` becomes `%` and two hex digits.
pub uninterp spec fn percent_encoded(text: Seq<char>) -> Seq<char>;

/// Relies on urlencoding's `encode`: the result depends on the text alone.
#[verifier::external_body]
fn url_encode(text: &str) -> (r: String)
    ensures
        r@ == percent_encoded(text@),
{
    urlencoding::encode(text).into_owned()
}

/// The page at the competition service where a user authorizes this
/// service.
pub open spec fn authorization_url(client_id: Seq<char>, redirect_uri: Seq<char>) -> Seq<char> {
    "https://www.worldcubeassociation.org/oauth/authorize?client_id="@ + client_id
        + "&redirect_uri="@ + percent_encoded(redirect_uri)
        + "&response_type=code&scope=manage_competitions"@
}

/// A call on the directory, as far as last-use times go: opening a session,
/// using one (`session_mut`), or a sweep.
pub enum DirectoryCall {
    Insert { key: Seq<char>, now: u64 },
    Touch { key: Seq<char>, now: u64 },
    Sweep { now: u64, threshold: u64 },
}

/// Last-use times after one call. Using an unknown key fails and changes
/// nothing.
pub open spec fn apply_call(activity: Map<Seq<char>, u64>, call: DirectoryCall) -> Map<
    Seq<char>,
    u64,
> {
    match call {
        DirectoryCall::Insert { key, now } => activity.insert(key, now),
        DirectoryCall::Touch { key, now } => if activity.contains_key(key) {
            activity.insert(key, now)
        } else {
            activity
        },
        DirectoryCall::Sweep { now, threshold } => swept(activity, now, threshold),
    }
}

/// Last-use times after a sequence of calls.
pub open spec fn apply_calls(activity: Map<Seq<char>, u64>, calls: Seq<DirectoryCall>) -> Map<
    Seq<char>,
    u64,
>
    decreases calls.len(),
{
    if calls.len() == 0 {
        activity
    } else {
        apply_call(apply_calls(activity, calls.drop_last()), calls.last())
    }
}

/// The time of the last successful opening or use of `key` in `calls`, or
/// its last use before them where there is none.
pub open spec fn last_use(activity: Map<Seq<char>, u64>, calls: Seq<DirectoryCall>, key: Seq<
    char,
>) -> u64
    decreases calls.len(),
{
    if calls.len() == 0 {
        activity[key]
    } else {
        let before = apply_calls(activity, calls.drop_last());
        match calls.last() {
            DirectoryCall::Insert { key: k, now } => if k == key {
                now
            } else {
                last_use(activity, calls.drop_last(), key)
            },
            DirectoryCall::Touch { key: k, now } => if k == key && before.contains_key(key) {
                now
            } else {
                last_use(activity, calls.drop_last(), key)
            },
            DirectoryCall::Sweep { .. } => last_use(activity, calls.drop_last(), key),
        }
    }
}

/// Whatever calls are made, a live session's last use is the time of the
/// last successful opening or use of its key: a session is never handed out
/// with an older time. (The directory holds at most one session per key:
/// it is a map.)
pub proof fn lemma_last_use_is_latest(
    activity: Map<Seq<char>, u64>,
    calls: Seq<DirectoryCall>,
    key: Seq<char>,
)
    requires
        apply_calls(activity, calls).contains_key(key),
    ensures
        apply_calls(activity, calls)[key] == last_use(activity, calls, key),
    decreases calls.len(),
{
    if calls.len() > 0 {
        let before = apply_calls(activity, calls.drop_last());
        match calls.last() {
            DirectoryCall::Insert { key: k, now } => {
                if k != key {
                    lemma_last_use_is_latest(activity, calls.drop_last(), key);
                }
            },
            DirectoryCall::Touch { key: k, now } => {
                if !(k == key && before.contains_key(key)) {
                    lemma_last_use_is_latest(activity, calls.drop_last(), key);
                }
            },
            DirectoryCall::Sweep { now, threshold } => {
                lemma_last_use_is_latest(activity, calls.drop_last(), key);
            },
        }
    }
}

/// A sweep evicts a session exactly when it was idle for more than the
/// threshold.
pub proof fn lemma_sweep_evicts_idle(
    activity: Map<Seq<char>, u64>,
    now: u64,
    threshold: u64,
    key: Seq<char>,
)
    requires
        activity.contains_key(key),
    ensures
        swept(activity, now, threshold).contains_key(key) <==> !(now - activity[key] > threshold),
{
}

/// A session used after the last sweep survives the next sweep with the
/// same threshold, when sweeps are no more than the threshold apart.
pub proof fn lemma_recent_use_survives(
    activity: Map<Seq<char>, u64>,
    key: Seq<char>,
    last_sweep: u64,
    now: u64,
    threshold: u64,
)
    requires
        activity.contains_key(key),
        activity[key] >= last_sweep,
        now - last_sweep <= threshold,
    ensures
        swept(activity, now, threshold).contains_key(key),
{
}

/// Along any run of directory states where each step is one call, as the
/// contracts of `insert_session`, `session_mut` and `clean` state, the last
/// state's last-use times are those of the call model; with
/// [`lemma_last_use_is_latest`], a live session's last use is the time of the
/// last successful opening or use of its key.
pub proof fn lemma_run_follows_calls<C, D>(states: Seq<DB<C, D>>, calls: Seq<DirectoryCall>)
    requires
        states.len() == calls.len() + 1,
        forall|i: int|
            0 <= i < calls.len() ==> #[trigger] states[i + 1].activity() == apply_call(
                states[i].activity(),
                calls[i],
            ),
    ensures
        states.last().activity() == apply_calls(states[0].activity(), calls),
    decreases calls.len(),
{
    if calls.len() > 0 {
        let shorter = states.drop_last();
        lemma_run_follows_calls(shorter, calls.drop_last());
        assert(states[calls.len() as int].activity() == apply_call(
            states[calls.len() - 1].activity(),
            calls[calls.len() - 1],
        ));
        assert(shorter.last() == states[calls.len() - 1]);
    }
}

/// All live sessions, by key. Each entry holds the session's last use and
/// the session.
pub struct DB<C, D> {
    config: Config,
    sessions: KeyedList<(u64, Session<C, D>)>,
}

impl<C, D> DB<C, D> {
    /// The live sessions, by key.
    pub closed spec fn sessions_spec(&self) -> Map<Seq<char>, Session<C, D>> {
        self.sessions@.map_values(|e: (u64, Session<C, D>)| e.1)
    }

    /// When each live session was last used, by key.
    pub closed spec fn activity(&self) -> Map<Seq<char>, u64> {
        self.sessions@.map_values(|e: (u64, Session<C, D>)| e.0)
    }

    /// The settings.
    pub closed spec fn config_spec(&self) -> Config {
        self.config
    }

    /// At most one session per key, and every session well formed.
    pub closed spec fn wf(&self) -> bool {
        &&& self.sessions.wf()
        &&& forall|k: Seq<char>| #[trigger]
            self.sessions@.contains_key(k) ==> self.sessions@[k].1.wf()
    }

    /// The live sessions and their last-use times have the same keys, and
    /// there are finitely many.
    pub proof fn lemma_keys(&self)
        ensures
            self.sessions_spec().dom() == self.activity().dom(),
            self.sessions_spec().dom().finite(),
    {
        self.sessions.lemma_finite();
        assert(self.sessions_spec().dom() =~= self.activity().dom());
        assert(self.sessions_spec().dom() =~= self.sessions@.dom());
    }

    /// An empty directory.
    pub fn new(config: Config) -> (r: DB<C, D>)
        ensures
            r.wf(),
            r.config_spec() == config,
            r.sessions_spec() == Map::<Seq<char>, Session<C, D>>::empty(),
            r.activity() == Map::<Seq<char>, u64>::empty(),
    {
        let r = DB { config, sessions: KeyedList::new() };
        assert(r.sessions_spec() =~= Map::<Seq<char>, Session<C, D>>::empty());
        assert(r.activity() =~= Map::<Seq<char>, u64>::empty());
        r
    }

    /// The settings.
    pub fn config(&self) -> (r: &Config)
        ensures
            *r == self.config_spec(),
    {
        &self.config
    }

    /// Whether a live session has this key. The session's last use does
    /// not change.
    pub fn session_exists(&self, session: &str) -> (r: bool)
        requires
            self.wf(),
        ensures
            r == self.sessions_spec().contains_key(session@),
    {
        self.sessions.contains_key(session)
    }

    /// Where to send a user to log in.
    pub fn auth_url(&self) -> (r: String)
        ensures
            r@ == authorization_url(self.config_spec().client_id@, self.config_spec().redirect_uri@),
    {
        let config = self.config();
        let encoded = url_encode(config.redirect_uri.as_str());
        String::from_str("https://www.worldcubeassociation.org/oauth/authorize?client_id=").concat(
            config.client_id.as_str(),
        ).concat("&redirect_uri=").concat(encoded.as_str()).concat(
            "&response_type=code&scope=manage_competitions",
        )
    }

    /// Opens a session under `auth_code` with a fresh cache, used now; any
    /// session under that key is replaced.
    pub fn insert_session(&mut self, auth_code: String, oauth: C, now: u64)
        requires
            old(self).wf(),
        ensures
            final(self).wf(),
            final(self).config_spec() == old(self).config_spec(),
            final(self).sessions_spec().dom() == old(self).sessions_spec().dom().insert(
                auth_code@,
            ),
            forall|k: Seq<char>|
                k != auth_code@ && #[trigger] old(self).sessions_spec().contains_key(k)
                    ==> final(self).sessions_spec()[k] == old(self).sessions_spec()[k],
            final(self).sessions_spec()[auth_code@].credential() == Some(oauth),
            final(self).sessions_spec()[auth_code@].documents() == Map::<Seq<char>, D>::empty(),
            old(self).sessions_spec().contains_key(auth_code@) ==> final(self).sessions_spec().len()
                == old(self).sessions_spec().len(),
            !old(self).sessions_spec().contains_key(auth_code@) ==> final(self).sessions_spec().len()
                == old(self).sessions_spec().len() + 1,
            final(self).activity() == apply_call(
                old(self).activity(),
                (DirectoryCall::Insert { key: auth_code@, now }),
            ),
    {
        let ghost key = auth_code@;
        let session = Session::new(oauth);
        self.sessions.insert(auth_code, (now, session));
        assert(self.activity() =~= old(self).activity().insert(key, now));
        assert(self.sessions_spec().dom() =~= old(self).sessions_spec().dom().insert(key));
        proof {
            old(self).lemma_keys();
        }
    }

    /// Opens a session with what the exchange of an authorization code
    /// returned; a failed exchange opens nothing.
    pub fn login<E>(&mut self, auth_code: String, exchanged: Result<C, E>, now: u64) -> (r: Result<
        (),
        ServiceError,
    >)
        requires
            old(self).wf(),
        ensures
            final(self).wf(),
            final(self).config_spec() == old(self).config_spec(),
            match exchanged {
                Ok(c) => r is Ok && final(self).sessions_spec().contains_key(auth_code@)
                    && final(self).sessions_spec()[auth_code@].credential() == Some(c)
                    && final(self).sessions_spec()[auth_code@].documents() == Map::<
                    Seq<char>,
                    D,
                >::empty() && final(self).activity() == old(self).activity().insert(
                    auth_code@,
                    now,
                ),
                Err(_) => r == Err::<(), ServiceError>(ServiceError::CredentialExchangeFailed)
                    && *final(self) == *old(self),
            },
    {
        match exchanged {
            Ok(oauth) => {
                self.insert_session(auth_code, oauth, now);
                Ok(())
            },
            Err(_) => Err(ServiceError::CredentialExchangeFailed),
        }
    }

    /// The session under `session`, for one request, now marked as used at
    /// `now`. Fails with `SessionNotFound`, changing nothing, when no live
    /// session has that key.
    pub fn session_mut(&mut self, session: &str, now: u64) -> (r: Result<
        &mut Session<C, D>,
        ServiceError,
    >)
        requires
            old(self).wf(),
        ensures
            final(self).config_spec() == old(self).config_spec(),
            final(self).activity() == apply_call(
                old(self).activity(),
                (DirectoryCall::Touch { key: session@, now }),
            ),
            match r {
                Ok(s) => {
                    &&& old(self).sessions_spec().contains_key(session@)
                    &&& *s == old(self).sessions_spec()[session@]
                    &&& s.wf()
                    &&& final(self).sessions_spec() == old(self).sessions_spec().insert(
                        session@,
                        *final(s),
                    )
                    &&& final(self).activity() == old(self).activity().insert(session@, now)
                    &&& final(s).wf() ==> final(self).wf()
                },
                Err(e) => {
                    &&& e == ServiceError::SessionNotFound
                    &&& !old(self).sessions_spec().contains_key(session@)
                    &&& *final(self) == *old(self)
                },
            },
    {
        let ghost before = self.sessions@;
        let ghost key = session@;
        proof {
            assert forall|after: KeyedList<(u64, Session<C, D>)>|
                #![trigger after@]
                #![trigger after.wf()]
                after.wf() && after@ == before.insert(key, (now, after@[key].1)) implies {
                &&& after@.map_values(|e: (u64, Session<C, D>)| e.1) == before.map_values(
                    |e: (u64, Session<C, D>)| e.1,
                ).insert(key, after@[key].1)
                &&& after@.map_values(|e: (u64, Session<C, D>)| e.0) == before.map_values(
                    |e: (u64, Session<C, D>)| e.0,
                ).insert(key, now)
                &&& (after@[key].1.wf() && (forall|k: Seq<char>| #[trigger]
                    before.contains_key(k) ==> before[k].1.wf())) ==> forall|k: Seq<char>|
                    #[trigger] after@.contains_key(k) ==> after@[k].1.wf()
            } by {
                assert(after@.map_values(|e: (u64, Session<C, D>)| e.1) =~= before.map_values(
                    |e: (u64, Session<C, D>)| e.1,
                ).insert(key, after@[key].1));
                assert(after@.map_values(|e: (u64, Session<C, D>)| e.0) =~= before.map_values(
                    |e: (u64, Session<C, D>)| e.0,
                ).insert(key, now));
            }
        }
        match self.sessions.get_mut(session) {
            Some(entry) => {
                entry.0 = now;
                Ok(&mut entry.1)
            },
            None => Err(ServiceError::SessionNotFound),
        }
    }

    /// Evicts every session idle at `now` for more than `idle_threshold`
    /// seconds; the others stay as they are.
    pub fn clean(&mut self, now: u64, idle_threshold: u64)
        requires
            old(self).wf(),
        ensures
            final(self).wf(),
            final(self).config_spec() == old(self).config_spec(),
            final(self).activity() == apply_call(
                old(self).activity(),
                (DirectoryCall::Sweep { now, threshold: idle_threshold }),
            ),
            final(self).sessions_spec().dom() == final(self).activity().dom(),
            final(self).sessions_spec().dom().subset_of(old(self).sessions_spec().dom()),
            forall|k: Seq<char>| #[trigger]
                final(self).sessions_spec().contains_key(k) <==> (old(self).sessions_spec().contains_key(k)
                    && !idle(old(self).activity()[k], now, idle_threshold)),
            forall|k: Seq<char>| #[trigger]
                final(self).sessions_spec().contains_key(k) ==> final(self).sessions_spec()[k]
                    == old(self).sessions_spec()[k],
    {
        let ghost pred = |e: (u64, Session<C, D>)| !idle(e.0, now, idle_threshold);
        let active = (|e: &(u64, Session<C, D>)| -> (b: bool)
            ensures
                b == !idle(e.0, now, idle_threshold),
            { !(now > e.0 && now - e.0 > idle_threshold) });
        self.sessions.retain(active, Ghost(pred));
        assert(self.activity() =~= swept(old(self).activity(), now, idle_threshold));
        assert(self.sessions_spec().dom() =~= self.activity().dom());
    }
}

} // verus!
