//! Cached DNS responses with a time to live.

pub mod lru_cache;

use vstd::prelude::*;
use crate::protocol::DnsPacket;
use std::time::{Duration, SystemTime, SystemTimeError};

verus! {

#[verifier::external_type_specification]
#[verifier::external_body]
pub struct ExSystemTime(SystemTime);

#[verifier::external_type_specification]
#[verifier::external_body]
pub struct ExSystemTimeError(SystemTimeError);

/// Calls `SystemTime::now`: the system clock, which nothing here can predict.
#[verifier::external_body]
fn system_now() -> SystemTime {
    SystemTime::now()
}

/// Calls `SystemTime::duration_since` with the Unix epoch: how long after the
/// epoch `t` lies, or an error if it lies before; its value depends on `t`, which
/// is opaque here.
#[verifier::external_body]
fn since_unix_epoch(t: SystemTime) -> Result<Duration, SystemTimeError> {
    t.duration_since(std::time::UNIX_EPOCH)
}

/// Calls `Duration::as_secs`: the whole seconds of `d`, which is opaque here.
#[verifier::external_body]
fn whole_seconds(d: &Duration) -> u64 {
    d.as_secs()
}

/// The seconds since the Unix epoch by the system clock, or zero if the clock
/// lies before the epoch.
pub(crate) fn unix_now() -> u64 {
    match since_unix_epoch(system_now()) {
        Ok(d) => whole_seconds(&d),
        Err(_) => 0,
    }
}

/// Represents a cached DNS record with TTL support.
#[derive(Clone, Copy, Debug, PartialEq, Eq, Structural)]
pub struct CachedDnsRecord {
    /// The cached DNS response packet.
    pub packet: DnsPacket,
    /// Timestamp when the record was cached (seconds since epoch).
    pub cached_at: u64,
    /// Time-to-live in seconds.
    pub ttl: u32,
}

impl CachedDnsRecord {
    /// Whether the record has expired at `now`: its time to live has run out.
    pub open spec fn expired_at(self, now: int) -> bool {
        now >= self.cached_at + self.ttl
    }

    /// A record of `packet` cached at `now`.
    pub fn new_at(packet: DnsPacket, ttl: u32, now: u64) -> (r: CachedDnsRecord)
        ensures
            r == (CachedDnsRecord { packet, cached_at: now, ttl }),
    {
        CachedDnsRecord { packet, cached_at: now, ttl }
    }

    /// A record of `packet` cached now, by the system clock.
    pub fn new(packet: DnsPacket, ttl: u32) -> (r: CachedDnsRecord)
        ensures
            r.packet == packet,
            r.ttl == ttl,
    {
        let cached_at = unix_now();
        Self::new_at(packet, ttl, cached_at)
    }

    /// Whether the record has expired at `now`.
    pub fn is_expired_at(&self, now: u64) -> (b: bool)
        ensures
            b == self.expired_at(now as int),
    {
        (now as u128) >= (self.cached_at as u128) + (self.ttl as u128)
    }

    /// Whether the record has expired now, by the system clock.
    pub fn is_expired(&self) -> (b: bool)
        ensures
            exists|now: u64| b == self.expired_at(now as int),
    {
        let now = unix_now();
        self.is_expired_at(now)
    }
}

/// Cache key combining domain name and query type.
#[derive(Clone, Debug, Eq, PartialEq, Hash)]
pub struct CacheKey {
    pub domain: String,
    pub qtype: u16,
}

impl CacheKey {
    /// What the key stands for: the domain's text and the query type's number.
    pub open spec fn key_view(&self) -> (Seq<char>, u16) {
        (self.domain@, self.qtype)
    }

    /// A copy of the key.
    pub fn duplicate(&self) -> (k: CacheKey)
        ensures
            k.key_view() == self.key_view(),
    {
        CacheKey { domain: self.domain.clone(), qtype: self.qtype }
    }

    /// The key of `domain` and `qtype`.
    pub fn new(domain: String, qtype: u16) -> (k: CacheKey)
        ensures
            k.key_view() == (domain@, qtype),
    {
        CacheKey { domain, qtype }
    }
}

/// A record is fresh for exactly its whole time to live after it was cached: it
/// has expired at `now` exactly when at least `ttl` seconds have passed since
/// `cached_at`, whatever the size of `ttl`; it is still fresh one second before
/// that, and stays expired ever after.
pub proof fn law_expiry(r: CachedDnsRecord, now: int, later: int)
    ensures
        r.expired_at(now) <==> now - r.cached_at >= r.ttl,
        r.expired_at(r.cached_at + r.ttl as int),
        r.ttl > 0 ==> !r.expired_at(r.cached_at + r.ttl - 1),
        !r.expired_at(r.cached_at as int) <==> r.ttl > 0,
        r.expired_at(now) && now <= later ==> r.expired_at(later),
{
}

} // verus!
