use gptload_rs::billing::BillingStore;
use gptload_rs::config::{BanConfig, Config, UpstreamConfig};
use gptload_rs::proxy::{check_caller, extract_api_key, is_hop_header};
use gptload_rs::router::RouterState;
use gptload_rs::routes::RouteEntry;
use gptload_rs::usage::usage_from_json_bytes;

#[test]
fn happy_chat() {
    let cfg = Config {
        listen_addr: "127.0.0.1:0".to_string(),
        worker_threads: None,
        request_timeout_ms: 1000,
        proxy_tokens: None,
        admin_tokens: vec!["adm".to_string()],
        data_dir: "d".to_string(),
        usage_inject_upstreams: None,
        ban: BanConfig { rate_limit_ms: 1, server_error_ms: 1, network_error_ms: 1, auth_error_ms: 1, max_backoff_pow: 1 },
        upstreams: Vec::new(),
    };
    let ups = vec![UpstreamConfig { id: "u1".to_string(), base_url: "https://up.test".to_string(), weight: Some(1) }];
    let mut r = RouterState::new(&cfg, &ups, &vec![vec!["k1".to_string()]]).unwrap();
    r.save_model_routes(vec![RouteEntry { key: "u1".to_string(), values: vec!["gpt".to_string()] }], 0).unwrap();
    let mut billing = BillingStore::new();
    billing.create_key("k".to_string(), 100);

    let key = extract_api_key(None, Some("Bearer k")).unwrap();
    assert_eq!(check_caller(r.authorize_proxy(None), true, billing.get_balance(&key)), None);
    let sel = r.select_for_model("gpt", 0).unwrap();
    let u = &r.snapshot.upstreams[sel.upstream];
    assert_eq!(u.keys[sel.key].auth_header, "Bearer k1");
    assert_eq!(format!("{}://{}{}", u.base_scheme, u.base_authority, u.target_path("/v1/chat/completions", None)), "https://up.test/v1/chat/completions");
    assert!(is_hop_header("connection"));

    let response = br#"{"choices":[],"usage":{"prompt_tokens":4,"completion_tokens":8,"total_tokens":12}}"#;
    r.on_upstream_status(sel, 200, 0);
    let usage = usage_from_json_bytes(response).unwrap();
    assert_eq!(billing.apply_usage(&key, usage.total), Some(88));
    assert_eq!(billing.get_balance("k"), Some(88));
}
