use dns_server::config::{Config, ConfigWarning};

fn config(cache_size: usize, log_level: &str) -> Config {
    Config { port: 2053, cache_size, threads: 0, log_level: log_level.to_string(), bind: "0.0.0.0".to_string() }
}

#[test]
fn socket_addr_joins_bind_and_port() {
    assert_eq!(config(1000, "debug").socket_addr(), "0.0.0.0:2053");
    let mut c = config(1000, "debug");
    c.port = 0;
    c.bind = "127.0.0.1".to_string();
    assert_eq!(c.socket_addr(), "127.0.0.1:0");
}

#[test]
fn validate_bounds_cache_size() {
    let mut c = config(3, "info");
    assert_eq!(c.validate(), vec![ConfigWarning::CacheSizeRaised]);
    assert_eq!(c.cache_size, 10);
    let mut c = config(100001, "info");
    assert_eq!(c.validate(), vec![ConfigWarning::CacheSizeLowered]);
    assert_eq!(c.cache_size, 100000);
    let mut c = config(500, "info");
    assert_eq!(c.validate(), vec![]);
    assert_eq!(c.cache_size, 500);
}

#[test]
fn validate_log_level() {
    let mut c = config(500, "WARN");
    assert!(c.validate().is_empty());
    assert_eq!(c.log_level, "warn");
    let mut c = config(1, "verbose");
    assert_eq!(c.validate(), vec![ConfigWarning::CacheSizeRaised, ConfigWarning::UnknownLogLevel]);
    assert_eq!(c.log_level, "debug");
    assert_eq!(c.cache_size, 10);
}

#[test]
fn validate_keeps_zero_cache_size() {
    // a cache size of 0 turns caching off and is kept
    let mut c = config(0, "info");
    assert!(c.validate().is_empty());
    assert_eq!(c.cache_size, 0);
    let mut c = config(9, "info");
    assert_eq!(c.validate(), vec![ConfigWarning::CacheSizeRaised]);
    assert_eq!(c.cache_size, 10);
    let mut c = config(10, "info");
    assert!(c.validate().is_empty());
    assert_eq!(c.cache_size, 10);
}
