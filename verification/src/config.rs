//! The server's settings and the limits they are held to.

use vstd::prelude::*;
use vstd::string::StringExecFns;
use crate::text::{decimal, lowercase, push_decimal, to_lower};

verus! {

/// The server's settings, as given on the command line.
#[derive(Debug, Clone)]
pub struct Config {
    /// Port to bind the DNS server to.
    pub port: u16,
    /// Maximum number of LRU cache entries (0 = caching off).
    pub cache_size: usize,
    /// Number of worker threads (0 = one per CPU core).
    pub threads: usize,
    /// Log level (trace, debug, info, warn, error).
    pub log_level: String,
    /// IP address to bind to.
    pub bind: String,
}

/// A setting that was out of bounds and has been replaced.
#[derive(Clone, Copy, Debug, PartialEq, Eq, Structural)]
pub enum ConfigWarning {
    /// The cache size was above zero but below the least allowed, and was raised
    /// to it.
    CacheSizeRaised,
    /// The cache size was above the most allowed and was lowered to it.
    CacheSizeLowered,
    /// The log level was none of the known ones and `debug` is used instead.
    UnknownLogLevel,
}

/// The least number of cache entries allowed when caching is on.
pub const MIN_CACHE_SIZE: usize = 10;

/// The most cache entries allowed.
pub const MAX_CACHE_SIZE: usize = 100000;

/// Whether `s` names one of the known log levels.
pub open spec fn is_log_level(s: Seq<char>) -> bool {
    s == "trace"@ || s == "debug"@ || s == "info"@ || s == "warn"@ || s == "error"@
}

/// Whether a cache size of `n` is raised to the least one allowed: it turns
/// caching on but is below that size.
pub open spec fn raises_cache_size(n: usize) -> bool {
    0 < n < MIN_CACHE_SIZE
}

/// The cache size `n` held to its bounds; zero, which turns caching off, stays.
pub open spec fn bounded_cache_size(n: usize) -> usize {
    if n == 0 {
        0
    } else if n < MIN_CACHE_SIZE {
        MIN_CACHE_SIZE
    } else if n > MAX_CACHE_SIZE {
        MAX_CACHE_SIZE
    } else {
        n
    }
}

/// The warnings that holding `c` to its bounds gives, in order.
pub open spec fn config_warnings(c: Config) -> Seq<ConfigWarning> {
    (if raises_cache_size(c.cache_size) {
        seq![ConfigWarning::CacheSizeRaised]
    } else if c.cache_size > MAX_CACHE_SIZE {
        seq![ConfigWarning::CacheSizeLowered]
    } else {
        Seq::empty()
    }) + (if is_log_level(lowercase(c.log_level@)) {
        Seq::empty()
    } else {
        seq![ConfigWarning::UnknownLogLevel]
    })
}

/// Whether `s` is a known log level; compared as given.
fn known_log_level(s: &String) -> (b: bool)
    ensures
        b == is_log_level(s@),
{
    let trace = "trace".to_owned();
    let debug = "debug".to_owned();
    let info = "info".to_owned();
    let warn = "warn".to_owned();
    let error = "error".to_owned();
    *s == trace || *s == debug || *s == info || *s == warn || *s == error
}

impl Config {
    /// The address to listen on: the bind address, a colon and the port.
    pub fn socket_addr(&self) -> (s: String)
        ensures
            s@ == self.bind@ + ":"@ + decimal(self.port as nat),
    {
        let mut s = self.bind.clone();
        s.append(":");
        push_decimal(&mut s, self.port as u64);
        s
    }

    /// Holds the settings to their bounds: the cache size to at least
    /// `MIN_CACHE_SIZE` and at most `MAX_CACHE_SIZE` entries, unless it is zero,
    /// which turns caching off; the log level to a known one in lower case
    /// (`debug` where it is none). Says which settings were replaced.
    pub fn validate(&mut self) -> (warnings: Vec<ConfigWarning>)
        ensures
            final(self).cache_size == bounded_cache_size(old(self).cache_size),
            final(self).log_level@ == (if is_log_level(lowercase(old(self).log_level@)) {
                lowercase(old(self).log_level@)
            } else {
                "debug"@
            }),
            final(self).port == old(self).port,
            final(self).threads == old(self).threads,
            final(self).bind@ == old(self).bind@,
            warnings@ == config_warnings(*old(self)),
    {
        let mut warnings: Vec<ConfigWarning> = Vec::new();
        if 0 < self.cache_size && self.cache_size < MIN_CACHE_SIZE {
            warnings.push(ConfigWarning::CacheSizeRaised);
            self.cache_size = MIN_CACHE_SIZE;
        }
        if self.cache_size > MAX_CACHE_SIZE {
            warnings.push(ConfigWarning::CacheSizeLowered);
            self.cache_size = MAX_CACHE_SIZE;
        }
        let lower = to_lower(self.log_level.as_str());
        if !known_log_level(&lower) {
            warnings.push(ConfigWarning::UnknownLogLevel);
            self.log_level = "debug".to_owned();
        } else {
            self.log_level = to_lower(self.log_level.as_str());
        }
        assert(warnings@ =~= config_warnings(*old(self)));
        warnings
    }
}


/// A bounded cache size is zero, which keeps caching off, or lies within the
/// bounds; bounding it again leaves it as it is.
pub proof fn law_cache_size_bounded(n: usize)
    ensures
        bounded_cache_size(n) == 0 <==> n == 0,
        n != 0 ==> MIN_CACHE_SIZE <= bounded_cache_size(n) <= MAX_CACHE_SIZE,
        bounded_cache_size(bounded_cache_size(n)) == bounded_cache_size(n),
        MIN_CACHE_SIZE <= n <= MAX_CACHE_SIZE ==> bounded_cache_size(n) == n,
{
}

/// The five documented log levels are each known, so `validate` keeps any of
/// them without a warning: trace, debug, info, warn and error.
pub proof fn law_log_levels_known()
    ensures
        is_log_level("trace"@),
        is_log_level("debug"@),
        is_log_level("info"@),
        is_log_level("warn"@),
        is_log_level("error"@),
        !is_log_level("verbose"@),
        !is_log_level(""@),
{
    reveal_strlit("trace");
    reveal_strlit("debug");
    reveal_strlit("info");
    reveal_strlit("warn");
    reveal_strlit("error");
    reveal_strlit("verbose");
    reveal_strlit("");
    assert("verbose"@.len() == 7);
    assert(""@.len() == 0);
}

} // verus!
