use dns_server::logging::ResponseLog;
use dns_server::protocol::{QueryType, ResultCode};

#[test]
fn test_response_log_format() {
    let log = ResponseLog {
        domain_name: "example.com".to_string(),
        query_type: QueryType::A,
        response_time_ms: 50,
        answer_count: 2,
        authority_count: 1,
        response_size: 128,
        was_cache_hit: false,
        ttl_values: vec![3600, 3600],
        result_code: ResultCode::NOERROR,
    };

    let formatted = log.to_string();
    assert!(formatted.contains("example.com"));
    assert!(formatted.contains("50ms"));
    assert!(formatted.contains("MISS"));
    assert!(formatted.contains("Answers: 2"));
    assert!(formatted.contains("128B"));
}

#[test]
fn test_response_log_cache_hit() {
    let log = ResponseLog {
        domain_name: "google.com".to_string(),
        query_type: QueryType::A,
        response_time_ms: 2,
        answer_count: 4,
        authority_count: 0,
        response_size: 256,
        was_cache_hit: true,
        ttl_values: vec![3600, 3600, 3600, 3600],
        result_code: ResultCode::NOERROR,
    };

    let formatted = log.to_string();
    assert!(formatted.contains("HIT"));
    assert!(formatted.contains("2ms"));
}

#[test]
fn test_response_log_ttl_extraction() {
    let ttls = vec![300, 600, 3600];
    let log = ResponseLog {
        domain_name: "test.com".to_string(),
        query_type: QueryType::MX,
        response_time_ms: 100,
        answer_count: 3,
        authority_count: 0,
        response_size: 200,
        was_cache_hit: false,
        ttl_values: ttls.clone(),
        result_code: ResultCode::NOERROR,
    };

    assert_eq!(log.ttl_values, ttls);
}

#[test]
fn test_response_log_timing() {
    let log = ResponseLog {
        domain_name: "example.com".to_string(),
        query_type: QueryType::A,
        response_time_ms: 250,
        answer_count: 1,
        authority_count: 0,
        response_size: 64,
        was_cache_hit: false,
        ttl_values: vec![3600],
        result_code: ResultCode::NOERROR,
    };

    assert!(log.response_time_ms > 0);
    let formatted = log.to_string();
    assert!(formatted.contains("250ms"));
}

#[test]
fn test_response_log_answer_count() {
    let log = ResponseLog {
        domain_name: "example.com".to_string(),
        query_type: QueryType::A,
        response_time_ms: 100,
        answer_count: 5,
        authority_count: 3,
        response_size: 512,
        was_cache_hit: false,
        ttl_values: vec![3600; 5],
        result_code: ResultCode::NOERROR,
    };

    assert_eq!(log.answer_count, 5);
    assert_eq!(log.authority_count, 3);
    let formatted = log.to_string();
    assert!(formatted.contains("Answers: 5"));
    assert!(formatted.contains("Authority: 3"));
}

#[test]
fn log_line_exact() {
    let log = ResponseLog {
        domain_name: "x.org".to_string(),
        query_type: QueryType::UNKNOWN(99),
        response_time_ms: 0,
        answer_count: 0,
        authority_count: 10,
        response_size: 1234,
        was_cache_hit: true,
        ttl_values: vec![],
        result_code: ResultCode::NXDOMAIN,
    };
    assert_eq!(
        log.to_string(),
        "Domain: x.org | Type: UNKNOWN(99) | Time: 0ms | Cache: HIT | Answers: 0 | Authority: 10 | Size: 1234B | TTLs: [] | Result: NXDOMAIN"
    );
    let log2 = ResponseLog { ttl_values: vec![1, 22, 333], query_type: QueryType::AAAA, ..log };
    assert!(log2.to_string().contains("| Type: AAAA |"));
    assert!(log2.to_string().contains("TTLs: [1, 22, 333] |"));
}
