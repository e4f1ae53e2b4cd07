use gptload_rs::proxy::{round_trip_error, ProxyError};
use gptload_rs::breaker::backoff_ms;
use gptload_rs::config::{BanConfig, Config, UpstreamConfig};
use gptload_rs::router::{RouterState, Selected};
use gptload_rs::routes::RouteEntry;
use gptload_rs::snapshot::{build_snapshot_from_configs, clamp_weight, RouterError};

fn ban() -> BanConfig {
    BanConfig {
        rate_limit_ms: 1000,
        server_error_ms: 2000,
        network_error_ms: 3000,
        auth_error_ms: 4000,
        max_backoff_pow: 3,
    }
}

fn upstream(id: &str, url: &str, weight: Option<usize>) -> UpstreamConfig {
    UpstreamConfig { id: id.to_string(), base_url: url.to_string(), weight }
}

fn config(upstreams: Vec<UpstreamConfig>) -> Config {
    Config {
        listen_addr: "127.0.0.1:8080".to_string(),
        worker_threads: None,
        request_timeout_ms: 30_000,
        proxy_tokens: None,
        admin_tokens: vec!["admin".to_string()],
        data_dir: "data".to_string(),
        usage_inject_upstreams: Some(vec![" u1 ".to_string()]),
        ban: ban(),
        upstreams,
    }
}

fn keys(list: &[&str]) -> Vec<String> {
    list.iter().map(|s| s.to_string()).collect()
}

fn router(ups: Vec<UpstreamConfig>, key_lists: Vec<Vec<String>>) -> RouterState {
    let cfg = config(Vec::new());
    RouterState::new(&cfg, &ups, &key_lists).expect("router builds")
}

fn route(id: &str, models: &[&str]) -> RouteEntry {
    RouteEntry { key: id.to_string(), values: keys(models) }
}

#[test]
fn schedule_length_is_sum_of_weights() {
    let ups = vec![
        upstream("a", "https://a.test", Some(3)),
        upstream("b", "https://b.test", None),
        upstream("c", "https://c.test", Some(250)),
    ];
    let snap = build_snapshot_from_configs(&ups, &vec![keys(&["k"]), keys(&[]), keys(&["x", "y"])]).unwrap();
    assert_eq!(snap.schedule.len(), 3 + 1 + 100);
    assert_eq!(&snap.schedule[0..4], &[0, 0, 0, 1]);
    assert!(snap.schedule[4..].iter().all(|&i| i == 2));
}

#[test]
fn weights_are_clamped() {
    assert_eq!(clamp_weight(Some(0)), 1);
    assert_eq!(clamp_weight(None), 1);
    assert_eq!(clamp_weight(Some(100)), 100);
    assert_eq!(clamp_weight(Some(101)), 100);
    assert_eq!(clamp_weight(Some(42)), 42);
}

#[test]
fn snapshot_rejects_duplicates_and_bad_urls() {
    let dup = vec![upstream("a", "https://a.test", None), upstream("a", "https://b.test", None)];
    assert_eq!(build_snapshot_from_configs(&dup, &vec![vec![], vec![]]).err(), Some(RouterError::DuplicateUpstream));
    let bad = vec![upstream("a", "not a url", None)];
    assert_eq!(build_snapshot_from_configs(&bad, &vec![vec![]]).err(), Some(RouterError::InvalidBaseUrl));
    let none: Vec<UpstreamConfig> = Vec::new();
    assert_eq!(build_snapshot_from_configs(&none, &Vec::new()).err(), Some(RouterError::NoUpstreams));
    let badkey = vec![upstream("a", "https://a.test", None)];
    assert_eq!(build_snapshot_from_configs(&badkey, &vec![keys(&["bad\u{7f}key"])]).err(), Some(RouterError::InvalidKey));
}

#[test]
fn base_url_is_split() {
    let ups = vec![upstream("a", "https://api.test:8443/openai///", None)];
    let snap = build_snapshot_from_configs(&ups, &vec![keys(&["  k1  ", "", "k2\r"])]).unwrap();
    let u = &snap.upstreams[0];
    assert_eq!(u.base_scheme, "https");
    assert_eq!(u.base_authority, "api.test:8443");
    assert_eq!(u.base_path, "/openai");
    assert_eq!(u.keys.len(), 2);
    assert_eq!(u.keys[0].key, "k1");
    assert_eq!(u.keys[0].auth_header, "Bearer k1");
    assert_eq!(u.keys[1].key, "k2");
    assert_eq!(u.target_path("/v1/chat/completions", Some("a=1")), "/openai/v1/chat/completions?a=1");
    let plain = build_snapshot_from_configs(&vec![upstream("b", "https://b.test", None)], &vec![vec![]]).unwrap();
    assert_eq!(plain.upstreams[0].target_path("/v1/models", None), "/v1/models");
}

#[test]
fn selection_skips_cooled_credentials_and_upstreams() {
    let mut r = router(vec![upstream("a", "https://a.test", Some(1)), upstream("b", "https://b.test", Some(1))], vec![keys(&["k1", "k2"]), keys(&["k3"])]);
    r.snapshot.upstreams[0].keys[0].cooldown_until_ms = 5000;
    r.snapshot.upstreams[1].cooldown_until_ms = 5000;
    for _ in 0..10 {
        let sel = r.select(1000).unwrap();
        assert_eq!(sel.upstream, 0);
        assert_eq!(sel.key, 1);
    }
    r.snapshot.upstreams[0].keys[1].cooldown_until_ms = 5000;
    assert!(r.select(1000).is_none());
    assert!(r.select(5000).is_some());
}

#[test]
fn selection_filters_by_model() {
    let mut r = router(vec![upstream("a", "https://a.test", Some(1)), upstream("b", "https://b.test", Some(1))], vec![keys(&["k1"]), keys(&["k2"])]);
    r.save_model_routes(vec![route("a", &["gpt"]), route("b", &["other"])], 7).unwrap();
    assert!(r.model_exists("gpt"));
    assert!(!r.model_exists("missing"));
    for _ in 0..4 {
        assert_eq!(r.select_for_model("gpt", 0).unwrap().upstream, 0);
    }
    assert!(r.select_for_model("missing", 0).is_none());
    assert_eq!(r.stats.upstream_selected_total, 4);
    assert_eq!(r.snapshot.upstreams[0].stats.selected_total, 4);
}

#[test]
fn backoff_formula() {
    assert_eq!(backoff_ms(1000, 1, 3), 1000);
    assert_eq!(backoff_ms(1000, 2, 3), 2000);
    assert_eq!(backoff_ms(1000, 4, 3), 8000);
    assert_eq!(backoff_ms(1000, 9, 3), 8000);
    assert_eq!(backoff_ms(1, 40, 99), 1 << 30);
    assert_eq!(backoff_ms(u64::MAX / 2, 3, 5), u64::MAX);
}

#[test]
fn rate_limit_failover() {
    let mut r = router(vec![upstream("u1", "https://up.test", Some(1))], vec![keys(&["k1", "k2"])]);
    let first = r.select(10_000).unwrap();
    r.on_upstream_status(first, 429, 10_000);
    let cooled = &r.snapshot.upstreams[0].keys[first.key];
    assert!(cooled.cooldown_until_ms >= 10_000 + 1000);
    assert_eq!(cooled.fail_streak, 1);
    let second = r.select(10_000).unwrap();
    assert_ne!(second.key, first.key);
    r.on_upstream_status(second, 200, 10_000);
    assert_eq!(r.stats.responses_2xx, 1);
    assert_eq!(r.stats.responses_4xx, 1);
    assert_eq!(r.snapshot.upstreams[0].keys[second.key].fail_streak, 0);
}

#[test]
fn repeated_rate_limits_back_off_exponentially() {
    let mut r = router(vec![upstream("u1", "https://up.test", Some(1))], vec![keys(&["k1"])]);
    let sel = Selected { upstream: 0, key: 0, generation: r.generation };
    r.on_upstream_status(sel, 429, 0);
    assert_eq!(r.snapshot.upstreams[0].keys[0].cooldown_until_ms, 1000);
    r.on_upstream_status(sel, 429, 0);
    assert_eq!(r.snapshot.upstreams[0].keys[0].cooldown_until_ms, 2000);
    r.on_upstream_status(sel, 401, 0);
    assert_eq!(r.snapshot.upstreams[0].keys[0].cooldown_until_ms, 4000 * 4);
    r.on_upstream_status(sel, 404, 0);
    assert_eq!(r.snapshot.upstreams[0].keys[0].fail_streak, 0);
}

#[test]
fn upstream_outage() {
    let mut r = router(vec![upstream("u1", "https://up.test", Some(1))], vec![keys(&["k1"])]);
    r.save_model_routes(vec![route("u1", &["gpt"])], 1).unwrap();
    let sel = r.select_for_model("gpt", 1000).unwrap();
    r.on_upstream_status(sel, 503, 1000);
    assert_eq!(r.snapshot.upstreams[0].fail_streak, 1);
    assert_eq!(r.snapshot.upstreams[0].cooldown_until_ms, 3000);
    assert_eq!(r.stats.responses_5xx, 1);
    assert!(r.select_for_model("gpt", 2000).is_none());
    assert!(r.select_for_model("gpt", 3000).is_some());
}

#[test]
fn transport_failures_back_off_the_upstream() {
    let mut r = router(vec![upstream("u1", "https://up.test", Some(1))], vec![keys(&["k1"])]);
    let sel = r.select(0).unwrap();
    r.on_timeout(sel, 100);
    assert_eq!(r.snapshot.upstreams[0].cooldown_until_ms, 3100);
    assert_eq!(r.stats.errors_timeout, 1);
    r.on_network_error(sel, 100);
    assert_eq!(r.snapshot.upstreams[0].cooldown_until_ms, 6100);
    assert_eq!(r.snapshot.upstreams[0].stats.errors_network, 1);
    r.on_upstream_status(sel, 200, 200);
    assert_eq!(r.snapshot.upstreams[0].cooldown_until_ms, 0);
    assert_eq!(r.snapshot.upstreams[0].fail_streak, 0);
}

#[test]
fn snapshot_swap_drops_stale_outcomes() {
    let mut r = router(vec![upstream("u1", "https://up.test", Some(1))], vec![keys(&["k1"])]);
    let old_sel = r.select(0).unwrap();
    let mut list = r.add_upstream(upstream("u2", "https://two.test", Some(2))).unwrap();
    assert_eq!(list.len(), 2);
    assert!(r.add_upstream(upstream("u1", "https://x.test", None)).is_err());
    list[1].weight = Some(2);
    r.replace_upstreams(&list, &vec![keys(&["k1"]), keys(&["k9"])]).unwrap();
    assert_eq!(r.snapshot.schedule.len(), 3);
    r.on_upstream_status(old_sel, 429, 0);
    assert_eq!(r.snapshot.upstreams[0].keys[0].cooldown_until_ms, 0);
    let mut saw_new = false;
    for _ in 0..3 {
        if r.select(0).unwrap().upstream == 1 {
            saw_new = true;
        }
    }
    assert!(saw_new);
    let after = r.delete_upstream("u1").unwrap();
    assert_eq!(after.len(), 1);
    assert_eq!(after[0].id, "u2");
    assert_eq!(r.delete_upstream("nope").err(), Some(RouterError::UnknownUpstream));
    let upd = r.update_upstream("u2", "https://new.test".to_string(), Some(5)).unwrap();
    assert_eq!(upd[1].base_url, "https://new.test");
    assert_eq!(upd[1].weight, Some(5));
    assert_eq!(upd[0].weight, Some(1));
}

#[test]
fn router_auth_and_hint_sets() {
    let mut cfg = config(Vec::new());
    cfg.proxy_tokens = Some(vec!["  p1 ".to_string(), "".to_string()]);
    let ups = vec![upstream("u1", "https://up.test", None)];
    let r = RouterState::new(&cfg, &ups, &vec![vec![]]).unwrap();
    assert!(r.authorize_proxy(Some("p1")));
    assert!(!r.authorize_proxy(Some("p2")));
    assert!(!r.authorize_proxy(None));
    assert!(r.authorize_admin_header(Some("admin")));
    assert!(!r.authorize_admin_header(None));
    assert!(r.authorize_admin_token_str("admin"));
    assert!(r.should_inject_usage("u1"));
    assert!(!r.should_inject_usage("u2"));
    let open = RouterState::new(&config(Vec::new()), &ups, &vec![vec![]]).unwrap();
    assert!(open.authorize_proxy(None));
    assert_eq!(open.upstream_by_id("u1"), Some(0));
    assert_eq!(open.upstream_by_id("u9"), None);
}

#[test]
fn credential_lists_are_swapped() {
    let mut r = router(vec![upstream("u1", "https://up.test", Some(1))], vec![keys(&["k1"])]);
    assert_eq!(r.append_upstream_keys(0, &keys(&["k2", "k3"])).unwrap(), 3);
    assert_eq!(r.remove_upstream_keys(0, &keys(&["k2"])).unwrap(), 2);
    let names: Vec<&str> = r.snapshot.upstreams[0].keys.iter().map(|k| k.key.as_str()).collect();
    assert_eq!(names, vec!["k1", "k3"]);
    assert_eq!(r.set_upstream_keys(0, &keys(&["z"])).unwrap(), 1);
    assert_eq!(r.set_upstream_keys(3, &keys(&["z"])).err(), Some(RouterError::UnknownUpstream));
    assert_eq!(r.set_upstream_keys(0, &keys(&["bad\nkey"])).err(), Some(RouterError::InvalidKey));
}

#[test]
fn model_routes_round_trip() {
    let mut r = router(vec![upstream("a", "https://a.test", None), upstream("b", "https://b.test", None)], vec![keys(&["k"]), keys(&["k"])]);
    let saved = r.save_model_routes(vec![route("a", &[" gpt ", "gpt", "", "mini"]), route("b", &["gpt"])], 123).unwrap();
    assert_eq!(saved.updated_at_ms, 123);
    assert_eq!(saved.upstreams[0].values, keys(&["gpt", "mini"]));
    assert_eq!(saved.upstreams[1].values, keys(&["gpt"]));
    let gpt = saved.models.iter().find(|e| e.key == "gpt").unwrap();
    assert_eq!(gpt.values, keys(&["a", "b"]));
    let mini = saved.models.iter().find(|e| e.key == "mini").unwrap();
    assert_eq!(mini.values, keys(&["a"]));
    assert_eq!(saved.models.len(), 2);
    assert!(gptload_rs::routes::routes_has_upstream(&saved, "a"));
    assert!(!gptload_rs::routes::routes_has_upstream(&saved, "c"));
    assert!(r.save_model_routes(vec![route("zzz", &["gpt"])], 1).is_err());
}

#[test]
fn routes_from_live_sets_and_pruning() {
    let mut r = router(vec![upstream("a", "https://a.test", None), upstream("b", "https://b.test", None)], vec![keys(&["k"]), keys(&["k"])]);
    let saved = r.save_model_routes(vec![route("a", &["m1", "m2"]), route("b", &["m2"])], 5).unwrap();
    let live = r.build_model_routes(9);
    assert_eq!(live.updated_at_ms, 9);
    assert_eq!(live.upstreams.len(), 2);
    let mut a_models = live.upstreams.iter().find(|e| e.key == "a").unwrap().values.clone();
    a_models.sort();
    assert_eq!(a_models, keys(&["m1", "m2"]));
    let mut m2 = live.models.iter().find(|e| e.key == "m2").unwrap().values.clone();
    m2.sort();
    assert_eq!(m2, keys(&["a", "b"]));
    assert!(r.cleanup_routes(&saved, 10).is_none());
    let list = r.delete_upstream("b").unwrap();
    r.replace_upstreams(&list, &vec![keys(&["k"])]).unwrap();
    let pruned = r.cleanup_routes(&saved, 11).unwrap();
    assert_eq!(pruned.updated_at_ms, 11);
    assert_eq!(pruned.upstreams.len(), 1);
    assert_eq!(pruned.upstreams[0].key, "a");
    assert!(pruned.models.iter().all(|e| e.values == keys(&["a"])));
}

#[test]
fn retry_step_moves_to_another_credential() {
    let mut r = router(vec![upstream("u1", "https://up.test", Some(1))], vec![keys(&["k1", "k2"])]);
    r.save_model_routes(vec![route("u1", &["gpt"])], 0).unwrap();
    let first = r.select_for_model("gpt", 50).unwrap();
    let second = r.retry_after_status(first, 429, 0, "gpt", 50).unwrap();
    assert_ne!(second.key, first.key);
    assert!(r.snapshot.upstreams[0].keys[first.key].cooldown_until_ms >= 1050);
    assert!(r.retry_after_status(second, 429, 1, "gpt", 50).is_none());
    let third = r.select_for_model("gpt", 2050).unwrap();
    assert!(r.retry_after_status(third, 429, 5, "gpt", 2050).is_none());
    assert!(r.retry_after_status(third, 200, 0, "gpt", 2050).is_none());
}

#[test]
fn latency_counters() {
    let mut r = router(vec![upstream("u1", "https://up.test", None)], vec![keys(&["k"])]);
    r.record_latency(500);
    r.record_latency(200);
    assert_eq!(r.stats.latency_ns_total, 700);
    assert_eq!(r.stats.latency_count, 2);
    assert_eq!(r.stats.latency_ns_max, 500);
}

#[test]
fn forward_plan_order() {
    let mut r = router(vec![upstream("u1", "https://up.test", Some(1))], vec![keys(&["k1"])]);
    r.save_model_routes(vec![route("u1", &["gpt"])], 0).unwrap();
    assert_eq!(r.plan_forward(None, "/v1/chat/completions", false, 0).err(), Some(ProxyError::ModelRequired));
    assert_eq!(r.plan_forward(Some("nope".to_string()), "/v1/chat/completions", false, 0).err(), Some(ProxyError::ModelNotFound));
    let plan = r.plan_forward(Some("gpt".to_string()), "/v1/chat/completions", true, 0).unwrap();
    assert_eq!(plan.model, "gpt");
    assert!(plan.inject_hint);
    let plain = r.plan_forward(None, "/v1/models/gpt", true, 0).unwrap();
    assert!(!plain.inject_hint);
    r.snapshot.upstreams[0].cooldown_until_ms = 100;
    assert_eq!(r.plan_forward(Some("gpt".to_string()), "/v1/chat/completions", false, 50).err(), Some(ProxyError::ModelUnavailable));
    assert_eq!(round_trip_error(true).status(), 504);
    assert_eq!(round_trip_error(false).status(), 502);
    r.begin_request();
    assert_eq!(r.stats.requests_inflight, 1);
    r.end_request();
    assert_eq!((r.stats.requests_total, r.stats.requests_inflight), (1, 0));
    assert_eq!(gptload_rs::billing::clean_billing_key("  k "), Some("k".to_string()));
    assert_eq!(gptload_rs::billing::clean_billing_key("   "), None);
}

#[test]
fn saved_routes_are_sorted() {
    let mut r = router(vec![upstream("b", "https://b.test", None), upstream("a", "https://a.test", None)], vec![keys(&["k"]), keys(&["k"])]);
    let saved = r.save_model_routes(vec![route("b", &["zeta", " alpha", "mid", "alpha"]), route("a", &["mid"])], 1).unwrap();
    assert_eq!(saved.upstreams[0].values, keys(&["alpha", "mid", "zeta"]));
    let mid = saved.models.iter().find(|e| e.key == "mid").unwrap();
    assert_eq!(mid.values, keys(&["a", "b"]));
}
