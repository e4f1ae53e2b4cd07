use gptload_rs::config::{BanConfig, Config, ConfigError, UpstreamConfig};

fn base() -> Config {
    Config {
        listen_addr: "0.0.0.0:8080".to_string(),
        worker_threads: Some(2),
        request_timeout_ms: 1000,
        proxy_tokens: Some(vec![" a ".to_string(), " ".to_string()]),
        admin_tokens: vec!["  ".to_string(), " adm ".to_string()],
        data_dir: "data".to_string(),
        usage_inject_upstreams: Some(vec!["".to_string()]),
        ban: BanConfig { rate_limit_ms: 1, server_error_ms: 2, network_error_ms: 3, auth_error_ms: 4, max_backoff_pow: 40 },
        upstreams: vec![UpstreamConfig { id: "u1".to_string(), base_url: "https://x.test".to_string(), weight: None }],
    }
}

#[test]
fn normalize_trims_and_drops_blanks() {
    let mut c = base();
    c.normalize();
    assert_eq!(c.proxy_tokens, Some(vec!["a".to_string()]));
    assert_eq!(c.admin_tokens, vec!["adm".to_string()]);
    assert_eq!(c.usage_inject_upstreams, None);
    assert_eq!(c.validate(), Ok(()));
}

#[test]
fn validate_reports_first_problem() {
    let mut c = base();
    c.admin_tokens.clear();
    assert_eq!(c.validate(), Err(ConfigError::AdminTokensEmpty));
    let mut c = base();
    c.upstreams.clear();
    assert_eq!(c.validate(), Err(ConfigError::UpstreamsEmpty));
    let mut c = base();
    c.upstreams.push(UpstreamConfig { id: "  ".to_string(), base_url: "ftp://x".to_string(), weight: None });
    c.upstreams.push(UpstreamConfig { id: "u3".to_string(), base_url: "ftp://x".to_string(), weight: None });
    assert_eq!(c.validate(), Err(ConfigError::EmptyUpstreamId(1)));
    c.upstreams[1].id = "u2".to_string();
    assert_eq!(c.validate(), Err(ConfigError::BadBaseUrl(1)));
}
