//! The resolver's decisions: where to start, what to ask, how to answer, and
//! what to do with each reply.

use vstd::prelude::*;
use crate::buffer::{be16, BytePacketBuffer};
use crate::cache::lru_cache::{after_set, lookup_result, LruDnsCache};
use crate::cache::{CacheKey, CachedDnsRecord};
use crate::protocol::{DnsHeader, DnsPacket, ResultCode};

verus! {

/// The number of root name servers.
pub const ROOT_SERVER_COUNT: usize = 13;

/// How many times a query is sent before the lookup gives up.
pub const LOOKUP_ATTEMPTS: u32 = 3;

/// The time to live given to a cached answer whose first record is not at hand.
pub const DEFAULT_TTL: u32 = 300;

/// The IPv4 addresses of the root name servers, `a` to `m`.
pub open spec fn root_server_spec(i: int) -> [u8; 4] {
    if i == 0 {
        [198, 41, 0, 4]
    } else if i == 1 {
        [199, 9, 14, 201]
    } else if i == 2 {
        [192, 33, 4, 12]
    } else if i == 3 {
        [199, 7, 91, 13]
    } else if i == 4 {
        [192, 203, 230, 10]
    } else if i == 5 {
        [192, 5, 5, 241]
    } else if i == 6 {
        [192, 112, 36, 4]
    } else if i == 7 {
        [198, 97, 190, 53]
    } else if i == 8 {
        [192, 36, 148, 17]
    } else if i == 9 {
        [192, 58, 128, 30]
    } else if i == 10 {
        [193, 0, 14, 129]
    } else if i == 11 {
        [199, 7, 83, 42]
    } else {
        [202, 12, 27, 33]
    }
}

/// The address of root name server `i`.
pub fn root_server(i: usize) -> (a: [u8; 4])
    requires
        i < ROOT_SERVER_COUNT,
    ensures
        a == root_server_spec(i as int),
{
    match i {
        0 => [198, 41, 0, 4],
        1 => [199, 9, 14, 201],
        2 => [192, 33, 4, 12],
        3 => [199, 7, 91, 13],
        4 => [192, 203, 230, 10],
        5 => [192, 5, 5, 241],
        6 => [192, 112, 36, 4],
        7 => [198, 97, 190, 53],
        8 => [192, 36, 148, 17],
        9 => [192, 58, 128, 30],
        10 => [193, 0, 14, 129],
        11 => [199, 7, 83, 42],
        _ => [202, 12, 27, 33],
    }
}

/// Calls `rand::random::<usize>()`: a number drawn at random.
#[verifier::external_body]
fn random_usize() -> usize {
    rand::random::<usize>()
}

/// Calls `rand::random::<u16>()`: a number drawn at random.
#[verifier::external_body]
fn random_u16() -> u16 {
    rand::random::<u16>()
}

/// The root name server that a draw of `r` picks.
pub fn root_server_for(r: usize) -> (a: [u8; 4])
    ensures
        a == root_server_spec((r % ROOT_SERVER_COUNT) as int),
{
    root_server(r % ROOT_SERVER_COUNT)
}

/// A root name server picked at random to start a lookup with.
pub fn pick_root_server() -> (a: [u8; 4])
    ensures
        exists|i: int| 0 <= i < ROOT_SERVER_COUNT && a == root_server_spec(i),
{
    let r = random_usize();
    root_server_for(r)
}

/// The header of a query with identifier `id`: one question, recursion desired.
pub fn query_header(id: u16) -> (h: DnsHeader)
    ensures
        h == (DnsHeader { id, questions: 1, recursion_desired: true, ..DnsHeader::spec_new() }),
{
    let mut h = DnsHeader::new();
    h.id = id;
    h.questions = 1;
    h.recursion_desired = true;
    h
}

/// The header of a new query, with an identifier drawn at random.
pub fn new_query_header() -> (h: DnsHeader)
    ensures
        h == (DnsHeader { id: h.id, questions: 1, recursion_desired: true, ..DnsHeader::spec_new() }),
{
    query_header(random_u16())
}

/// The header of the answer to a request with identifier `id`: a response, with
/// recursion desired and available.
pub fn response_header(id: u16) -> (h: DnsHeader)
    ensures
        h == (DnsHeader {
            id,
            recursion_desired: true,
            recursion_available: true,
            response: true,
            ..DnsHeader::spec_new()
        }),
{
    let mut h = DnsHeader::new();
    h.id = id;
    h.recursion_desired = true;
    h.recursion_available = true;
    h.response = true;
    h
}

/// The header of the answer to a request that cannot be read: a response with
/// code `FORMERR`, with recursion desired and available, that echoes the
/// identifier in the request's first two bytes.
pub fn format_error_header(request: &BytePacketBuffer) -> (h: DnsHeader)
    ensures
        h == (DnsHeader {
            id: be16(request.buf[0], request.buf[1]) as u16,
            recursion_desired: true,
            recursion_available: true,
            response: true,
            rescode: ResultCode::FORMERR,
            ..DnsHeader::spec_new()
        }),
{
    let hi: u16 = request.buf[0] as u16;
    let lo: u16 = request.buf[1] as u16;
    let mut h = response_header(hi * 256 + lo);
    h.rescode = ResultCode::FORMERR;
    h
}

/// The header that the answer to a readable request starts from: a response that
/// echoes the request's identifier, with recursion desired and available. A
/// request that asks no question is invalid and is answered at once with code
/// `FORMERR`; for one that asks, the lookup's code and records are added later.
pub fn answer_header(request: &DnsHeader) -> (h: DnsHeader)
    ensures
        request.questions == 0 ==> h == (DnsHeader {
            id: request.id,
            recursion_desired: true,
            recursion_available: true,
            response: true,
            rescode: ResultCode::FORMERR,
            ..DnsHeader::spec_new()
        }),
        request.questions > 0 ==> h == (DnsHeader {
            id: request.id,
            recursion_desired: true,
            recursion_available: true,
            response: true,
            ..DnsHeader::spec_new()
        }),
{
    let mut h = response_header(request.id);
    if request.questions == 0 {
        h.rescode = ResultCode::FORMERR;
    }
    h
}

/// What the resolver does with a reply from a name server.
#[derive(Clone, Debug, PartialEq, Eq)]
pub enum ResolveStep {
    /// The reply answers the question: cache it and hand it back.
    Answer,
    /// The domain does not exist: hand the reply back.
    NoSuchDomain,
    /// Ask the name server at this address next.
    AskServer([u8; 4]),
    /// Look up the address of the name server of this name, then ask it.
    FindServer(String),
    /// There is nowhere left to ask: hand the reply back.
    GiveUp,
}

/// Decides what to do with a reply from a name server, whose code is `rescode`
/// and which carries `answer_count` answers; `resolved_ns` is the address of a
/// name server for the name that the reply's additional records give, and
/// `unresolved_ns` the name of one that they do not. Answers end the lookup, as
/// does a domain that does not exist; otherwise the lookup goes on with the name
/// server whose address the reply gives, or else with the one whose name it
/// gives, or gives up.
pub fn resolve_step(
    rescode: ResultCode,
    answer_count: usize,
    resolved_ns: Option<[u8; 4]>,
    unresolved_ns: Option<String>,
) -> (step: ResolveStep)
    ensures
        rescode == ResultCode::NOERROR && answer_count > 0 ==> step == ResolveStep::Answer,
        !(rescode == ResultCode::NOERROR && answer_count > 0) ==> ({
            if rescode == ResultCode::NXDOMAIN {
                step == ResolveStep::NoSuchDomain
            } else if resolved_ns is Some {
                step == ResolveStep::AskServer(resolved_ns->0)
            } else {
                match unresolved_ns {
                    Some(n) => step matches ResolveStep::FindServer(m) && m@ == n@,
                    None => step == ResolveStep::GiveUp,
                }
            }
        }),
{
    if rescode == ResultCode::NOERROR && answer_count > 0 {
        return ResolveStep::Answer;
    }
    if rescode == ResultCode::NXDOMAIN {
        return ResolveStep::NoSuchDomain;
    }
    if let Some(ns) = resolved_ns {
        return ResolveStep::AskServer(ns);
    }
    match unresolved_ns {
        Some(name) => ResolveStep::FindServer(name),
        None => ResolveStep::GiveUp,
    }
}

/// What follows the lookup of a name server's own address: ask it at `address`,
/// one of the address records that lookup gave, or hand the last reply back when
/// the lookup failed or gave none.
pub fn step_after_server_lookup(address: Option<[u8; 4]>) -> (step: ResolveStep)
    ensures
        step == (match address {
            Some(a) => ResolveStep::AskServer(a),
            None => ResolveStep::GiveUp,
        }),
{
    match address {
        Some(a) => ResolveStep::AskServer(a),
        None => ResolveStep::GiveUp,
    }
}

/// The packet of a cached record.
pub open spec fn packet_of(r: Option<CachedDnsRecord>) -> Option<DnsPacket> {
    match r {
        Some(c) => Some(c.packet),
        None => None,
    }
}

/// Answers a question from the cache first, at time `now`: the packet cached
/// under `key` when it has not expired; `None` sends the lookup out. The lookup
/// counts as a hit or a miss, as `LruDnsCache::get_at` has it.
pub fn cached_answer(cache: &mut LruDnsCache, key: &CacheKey, now: u64) -> (answer: Option<DnsPacket>)
    requires
        old(cache).hits() < u64::MAX,
        old(cache).misses() < u64::MAX,
    ensures
        answer == packet_of(lookup_result(old(cache).entries(), key.key_view(), now as int)),
        LruDnsCache::lookup_step(
            *old(cache),
            *final(cache),
            key.key_view(),
            now as int,
            lookup_result(old(cache).entries(), key.key_view(), now as int),
        ),
{
    match cache.get_at(key, now) {
        Some(r) => Some(r.packet),
        None => None,
    }
}

/// Caches the answer `response` to the question under `key` at time `now`, for
/// the time to live of its first record (`first_ttl`), or `DEFAULT_TTL` when it
/// has none.
pub fn cache_answer(cache: &mut LruDnsCache, key: CacheKey, response: DnsPacket, first_ttl: Option<u32>, now: u64)
    ensures
        final(cache).entries() == after_set(
            old(cache).entries(),
            key.key_view(),
            (CachedDnsRecord {
                packet: response,
                cached_at: now,
                ttl: match first_ttl {
                    Some(t) => t,
                    None => DEFAULT_TTL,
                },
            }),
            old(cache).capacity(),
        ),
        final(cache).capacity() == old(cache).capacity(),
        final(cache).hits() == old(cache).hits(),
        final(cache).misses() == old(cache).misses(),
{
    let record = CachedDnsRecord::new_at(response, answer_ttl(first_ttl), now);
    cache.set(key, record);
}

/// The time to live that an answer is cached for: that of its first record, or
/// `DEFAULT_TTL` when it has none.
pub fn answer_ttl(first_ttl: Option<u32>) -> (ttl: u32)
    ensures
        ttl == (match first_ttl {
            Some(t) => t,
            None => DEFAULT_TTL,
        }),
{
    match first_ttl {
        Some(t) => t,
        None => DEFAULT_TTL,
    }
}

/// The result code the answer to a request carries: that of the lookup's reply,
/// or `SERVFAIL` when the lookup failed.
pub fn answer_code(lookup: Option<ResultCode>) -> (code: ResultCode)
    ensures
        code == (match lookup {
            Some(c) => c,
            None => ResultCode::SERVFAIL,
        }),
{
    match lookup {
        Some(c) => c,
        None => ResultCode::SERVFAIL,
    }
}

/// Whether a lookup that has sent `attempts` queries without a reply sends
/// another.
pub fn should_retry(attempts: u32) -> (again: bool)
    ensures
        again == (attempts < LOOKUP_ATTEMPTS),
{
    attempts < LOOKUP_ATTEMPTS
}

} // verus!
