//! When the speech model is loaded.
//!
//! A load that worked holds for good. One that failed is tried again after a
//! while, so that a model that turns up is found.

use vstd::prelude::*;
use crate::chars::opt_text;
use crate::err::TtsError;

verus! {

/// How long after a failed load the next is tried, in nanoseconds.
pub const LOAD_RETRY: u64 = 30_000_000_000;

/// What is known of the speech model. The times are of a clock that never goes
/// back, in nanoseconds.
#[derive(Debug)]
pub struct Engine {
    /// Whether a tone stands in for the model.
    pub fake: bool,
    pub loaded: bool,
    /// When a load last failed.
    pub attempted: Option<u64>,
    pub retry_every: u64,
    /// Why it did.
    pub last_error: Option<String>,
}

/// What an [`Engine`] holds.
#[verifier::ext_equal]
pub struct EngineView {
    pub fake: bool,
    pub loaded: bool,
    pub attempted: Option<u64>,
    pub retry_every: u64,
    pub last_error: Option<Seq<char>>,
}

impl View for Engine {
    type V = EngineView;

    open spec fn view(&self) -> EngineView {
        EngineView {
            fake: self.fake,
            loaded: self.loaded,
            attempted: self.attempted,
            retry_every: self.retry_every,
            last_error: opt_text(self.last_error),
        }
    }
}

/// An engine after a load came out like this.
pub open spec fn after_load(e: EngineView, now: u64, outcome: Result<(), Seq<char>>) -> EngineView {
    match outcome {
        Ok(_) => EngineView { loaded: true, attempted: None, last_error: None, ..e },
        Err(why) => EngineView { attempted: Some(now), last_error: Some(why), ..e },
    }
}

/// Whether a load is tried now.
pub open spec fn load_due(e: EngineView, now: u64) -> bool {
    !e.loaded && match e.attempted {
        Some(t) => now - t >= e.retry_every,
        None => true,
    }
}

/// What a load came to.
pub open spec fn outcome_of(r: Result<(), String>) -> Result<(), Seq<char>> {
    match r {
        Ok(_) => Ok(()),
        Err(e) => Err(e@),
    }
}

impl Engine {
    /// Nothing has been loaded.
    pub fn new(fake: bool) -> (r: Self)
        ensures
            r@ == (EngineView {
                fake,
                loaded: false,
                attempted: None,
                retry_every: LOAD_RETRY,
                last_error: None,
            }),
    {
        Engine {
            fake,
            loaded: false,
            attempted: None,
            retry_every: LOAD_RETRY,
            last_error: None,
        }
    }

    /// Whether the model is loaded.
    pub fn ready(&self) -> (r: bool)
        ensures
            r == self@.loaded,
    {
        self.loaded
    }

    /// Why the last load failed.
    pub fn error(&self) -> (r: Option<String>)
        ensures
            opt_text(r) == self@.last_error,
    {
        match &self.last_error {
            Some(e) => Some(e.clone()),
            None => None,
        }
    }

    /// Why there is no model, where a load was tried. A server that has not asked
    /// for one is not broken, and the stand-in cannot fail.
    pub fn load_failure(&self) -> (r: Option<String>)
        ensures
            opt_text(r) == if self@.fake || self@.loaded {
                None
            } else {
                self@.last_error
            },
    {
        if self.fake || self.loaded {
            return None;
        }
        self.error()
    }

    /// Load the model by `build`, unless it is loaded or a load failed a moment
    /// ago, and say whether it can speak.
    pub fn load_via<F: FnOnce() -> Result<(), String>>(&mut self, now: u64, build: F) -> (r: bool)
        requires
            call_requires(build, ()),
        ensures
            r == final(self)@.loaded,
            !load_due(old(self)@, now) ==> final(self)@ == old(self)@,
            load_due(old(self)@, now) ==> exists|o: Result<(), String>| #[trigger]
                call_ensures(build, (), o) && final(self)@ == after_load(
                    old(self)@,
                    now,
                    outcome_of(o),
                ),
    {
        if self.loaded {
            return true;
        }
        if let Some(t) = self.attempted {
            if now < t || now - t < self.retry_every {
                return false;
            }
        }
        let o = build();
        let ghost out = o;
        match o {
            Ok(_) => {
                self.loaded = true;
                self.attempted = None;
                self.last_error = None;
                assert(self@ =~= after_load(old(self)@, now, outcome_of(out)));
                true
            },
            Err(e) => {
                self.attempted = Some(now);
                self.last_error = Some(e);
                assert(self@ =~= after_load(old(self)@, now, outcome_of(out)));
                false
            },
        }
    }

    /// What a chunk fails with while there is no model.
    pub fn unavailable(&self) -> (r: TtsError)
        ensures
            r matches TtsError::Model(e) && e@ == match self@.last_error {
                Some(why) => why,
                None => "not loaded"@,
            },
    {
        match &self.last_error {
            Some(e) => TtsError::Model(e.clone()),
            None => TtsError::Model("not loaded".to_owned()),
        }
    }
}

/// A failed load is tried again once its time has come, and never before; and
/// one that works heals the engine for good.
pub proof fn law_a_failed_load_heals(e: EngineView, then: u64, now: u64, later: u64, why: Seq<char>)
    requires
        load_due(e, then),
        then <= now,
    ensures
        ({
            let failed = after_load(e, then, Err(why));
            let healed = after_load(failed, now, Ok(()));
            &&& load_due(failed, now) == (now - then >= e.retry_every)
            &&& failed.last_error == Some(why)
            &&& healed.loaded
            &&& healed.last_error is None
            &&& !load_due(healed, later)
        }),
{
}

} // verus!
