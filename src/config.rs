use vstd::prelude::*;

verus! {

/// How much the program reports while it runs.
#[derive(Clone, Copy, Debug, PartialEq, Eq, Structural)]
pub enum LogLevel {
    Off,
    Error,
    Warn,
    Info,
    Debug,
    Trace,
}

/// The mutually exclusive verbosity switches of the command line.
#[derive(Clone, Copy, Debug, PartialEq, Eq, Structural)]
pub struct Verbosity {
    pub debug: bool,
    pub verbose: bool,
    pub quiet: bool,
}

impl Verbosity {
    pub open spec fn filter_spec(self) -> LogLevel {
        if self.debug {
            LogLevel::Trace
        } else if self.verbose {
            LogLevel::Debug
        } else if self.quiet {
            LogLevel::Warn
        } else {
            LogLevel::Info
        }
    }

    /// The level of messages shown: `debug` wins over `verbose`, which wins
    /// over `quiet`; with none of them set, informational messages are shown.
    pub fn to_filter(&self) -> (r: LogLevel)
        ensures
            r == self.filter_spec(),
    {
        if self.debug {
            LogLevel::Trace
        } else if self.verbose {
            LogLevel::Debug
        } else if self.quiet {
            LogLevel::Warn
        } else {
            LogLevel::Info
        }
    }
}

/// The two pronounceable-username algorithms.
#[derive(Clone, Copy, Debug, PartialEq, Eq, Structural)]
pub enum UsernameCommands {
    /// Alternating vowels and consonants; `length` characters.
    Simple { length: usize, count: Option<usize> },
    /// Built from syllables; `length` syllables.
    Complex { length: usize, count: Option<usize> },
}

/// Why a Markov run stops before it generates anything.
#[derive(Clone, Copy, Debug, PartialEq, Eq, Structural)]
pub enum MarkovError {
    /// The corpus could not be read.
    IoError,
    /// The corpus holds no symbols.
    EmptyCorpusError,
    /// The length range or the model order cannot be used.
    InvalidRangeError,
}

/// The inclusive range of lengths a generated word must fall in.
#[derive(Clone, Copy, Debug, PartialEq, Eq, Structural)]
pub struct LengthRange {
    pub minimum: usize,
    pub maximum: usize,
}

impl LengthRange {
    pub open spec fn is_valid(self) -> bool {
        self.minimum <= self.maximum && self.maximum > 0
    }

    /// Accepts the range exactly when `minimum <= maximum` and `maximum > 0`.
    pub fn validate(&self) -> (r: Result<(), MarkovError>)
        ensures
            r is Ok <==> self.is_valid(),
            r is Err ==> r == Err::<(), MarkovError>(MarkovError::InvalidRangeError),
    {
        if self.minimum > self.maximum || self.maximum == 0 {
            Err(MarkovError::InvalidRangeError)
        } else {
            Ok(())
        }
    }
}

/// How many thousandths make one unit of the Dirichlet prior.
pub const PRIOR_SCALE: u64 = 1000;

/// The largest prior accepted, in thousandths.
pub const MAX_PRIOR_MILLIS: u64 = 1_000_000_000;

/// The largest model order accepted.
pub const MAX_ORDER: usize = 1024;

/// Training parameters of a Markov model. The Dirichlet prior is held in
/// thousandths: `prior_millis == 1500` is a prior of 1.5.
#[derive(Clone, Copy, Debug, PartialEq, Eq, Structural)]
pub struct ModelParameters {
    pub order: usize,
    pub prior_millis: u64,
    pub backoff: bool,
}

impl ModelParameters {
    pub open spec fn is_valid(self) -> bool {
        &&& self.order <= MAX_ORDER
        &&& self.prior_millis <= MAX_PRIOR_MILLIS
        &&& !(self.order == 0 && self.backoff)
    }

    /// Accepts the parameters exactly when the order is at most `MAX_ORDER`,
    /// the prior at most `MAX_PRIOR_MILLIS`, and back-off is not asked of an
    /// order-0 model.
    pub fn validate(&self) -> (r: Result<(), MarkovError>)
        ensures
            r is Ok <==> self.is_valid(),
            r is Err ==> r == Err::<(), MarkovError>(MarkovError::InvalidRangeError),
    {
        if self.order > MAX_ORDER || self.prior_millis > MAX_PRIOR_MILLIS || (self.order == 0 && self.backoff) {
            Err(MarkovError::InvalidRangeError)
        } else {
            Ok(())
        }
    }
}

/// What to do with the on-disk model cache.
#[derive(Clone, Copy, Debug, PartialEq, Eq, Structural)]
pub enum CachePolicy {
    Bypass,
    UseOrBuild,
    ForceRebuild,
}

/// The cache switches of the command line.
#[derive(Clone, Copy, Debug, PartialEq, Eq, Structural)]
pub struct CacheControl {
    pub no_cache: bool,
    pub rebuild_cache: bool,
}

impl CacheControl {
    pub open spec fn policy_spec(self) -> CachePolicy {
        if self.no_cache {
            CachePolicy::Bypass
        } else if self.rebuild_cache {
            CachePolicy::ForceRebuild
        } else {
            CachePolicy::UseOrBuild
        }
    }

    /// `no_cache` bypasses the cache (and wins should both be set),
    /// `rebuild_cache` forces a rebuild, neither uses or builds it.
    pub fn policy(&self) -> (r: CachePolicy)
        ensures
            r == self.policy_spec(),
    {
        if self.no_cache {
            CachePolicy::Bypass
        } else if self.rebuild_cache {
            CachePolicy::ForceRebuild
        } else {
            CachePolicy::UseOrBuild
        }
    }
}

} // verus!
