use dns_server::buffer::BytePacketBuffer;
use dns_server::cache::lru_cache::LruDnsCache;
use dns_server::cache::CacheKey;
use dns_server::protocol::{DnsHeader, DnsPacket, ResultCode};
use dns_server::resolve::{
    answer_code, answer_header, answer_ttl, cache_answer, cached_answer, format_error_header, pick_root_server, query_header,
    response_header, resolve_step, root_server, root_server_for, should_retry, step_after_server_lookup,
    ResolveStep,
};

#[test]
fn root_servers() {
    assert_eq!(root_server(0), [198, 41, 0, 4]);
    assert_eq!(root_server(12), [202, 12, 27, 33]);
    assert_eq!(root_server_for(13), [198, 41, 0, 4]);
    assert_eq!(root_server_for(27), [199, 9, 14, 201]);
    let picked = pick_root_server();
    assert!((0..13).any(|i| root_server(i) == picked));
}

#[test]
fn headers() {
    let q = query_header(77);
    assert_eq!(q.id, 77);
    assert_eq!(q.questions, 1);
    assert!(q.recursion_desired);
    assert!(!q.response);
    let r = response_header(77);
    let mut expected = DnsHeader::new();
    expected.id = 77;
    expected.recursion_desired = true;
    expected.recursion_available = true;
    expected.response = true;
    assert_eq!(r, expected);
}

#[test]
fn steps() {
    assert_eq!(resolve_step(ResultCode::NOERROR, 2, Some([1, 2, 3, 4]), None), ResolveStep::Answer);
    assert_eq!(resolve_step(ResultCode::NXDOMAIN, 0, Some([1, 2, 3, 4]), None), ResolveStep::NoSuchDomain);
    assert_eq!(resolve_step(ResultCode::NOERROR, 0, Some([1, 2, 3, 4]), None), ResolveStep::AskServer([1, 2, 3, 4]));
    assert_eq!(
        resolve_step(ResultCode::NOERROR, 0, None, Some("ns.example".to_string())),
        ResolveStep::FindServer("ns.example".to_string())
    );
    assert_eq!(resolve_step(ResultCode::SERVFAIL, 3, None, None), ResolveStep::GiveUp);
}

#[test]
fn small_decisions() {
    assert_eq!(answer_ttl(Some(60)), 60);
    assert_eq!(answer_ttl(None), 300);
    assert_eq!(answer_code(Some(ResultCode::NXDOMAIN)), ResultCode::NXDOMAIN);
    assert_eq!(answer_code(None), ResultCode::SERVFAIL);
    assert!(should_retry(0));
    assert!(should_retry(2));
    assert!(!should_retry(3));
}

#[test]
fn unreadable_request_gets_format_error() {
    let mut request = BytePacketBuffer::new();
    request.buf[0] = 0x12;
    request.buf[1] = 0x34;
    let h = format_error_header(&request);
    let mut expected = response_header(0x1234);
    expected.rescode = ResultCode::FORMERR;
    assert_eq!(h, expected);
    assert_eq!(h.id, 0x1234);
}

#[test]
fn server_lookup_outcome() {
    assert_eq!(step_after_server_lookup(Some([10, 0, 0, 1])), ResolveStep::AskServer([10, 0, 0, 1]));
    assert_eq!(step_after_server_lookup(None), ResolveStep::GiveUp);
}

#[test]
fn answers_are_cached_and_served_from_cache() {
    let mut cache = LruDnsCache::new(10);
    let key = CacheKey::new("example.com".to_string(), 1);
    let mut response = DnsPacket::new();
    response.header.id = 9;
    response.header.answers = 1;
    assert_eq!(cached_answer(&mut cache, &key, 1000), None);
    assert_eq!(cache.miss_count(), 1);
    cache_answer(&mut cache, key.clone(), response, Some(60), 1000);
    assert_eq!(cached_answer(&mut cache, &key, 1059), Some(response));
    assert_eq!(cache.hit_count(), 1);
    assert_eq!(cached_answer(&mut cache, &key, 1060), None);
    // with no first record the answer is kept for the default time
    let other = CacheKey::new("other.com".to_string(), 1);
    cache_answer(&mut cache, other.clone(), response, None, 0);
    assert_eq!(cached_answer(&mut cache, &other, 299), Some(response));
    assert_eq!(cached_answer(&mut cache, &other, 300), None);
}

#[test]
fn nothing_is_cached_with_caching_off() {
    let mut cache = LruDnsCache::new(0);
    let key = CacheKey::new("example.com".to_string(), 1);
    cache_answer(&mut cache, key.clone(), DnsPacket::new(), Some(60), 0);
    assert_eq!(cache.size(), 0);
    assert_eq!(cached_answer(&mut cache, &key, 1), None);
}

#[test]
fn request_without_question_gets_format_error() {
    let mut request = DnsHeader::new();
    request.id = 4242;
    let h = answer_header(&request);
    let mut expected = response_header(4242);
    expected.rescode = ResultCode::FORMERR;
    assert_eq!(h, expected);
    request.questions = 1;
    assert_eq!(answer_header(&request), response_header(4242));
    assert_eq!(answer_header(&request).rescode, ResultCode::NOERROR);
}
