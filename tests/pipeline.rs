use gptload_rs::json::{ensure_stream_usage, inject_usage_hint, parse_request_json, plan_usage_hint, OptionsShape, StreamShape};
use gptload_rs::keys::{dedupe_keys, parse_text_keys, validate_keys};
use gptload_rs::proxy::{
    body_is_json, check_caller, choose_model, escape_json, extract_api_key, is_chat_completions, is_hop_header,
    is_models_list, json_error_body, path_model, should_retry, usage_modes, BodyBuffer, ProxyError,
    MAX_REQUEST_BODY_BYTES,
};
use gptload_rs::snapshot::RouterError;
use gptload_rs::usage::{parse_sse_usage, usage_from_json_bytes, usage_from_numbers, LineBuffer, UsageTokens};

fn strings(list: &[&str]) -> Vec<String> {
    list.iter().map(|s| s.to_string()).collect()
}

#[test]
fn body_limit_boundary() {
    let mut exact = BodyBuffer::new(MAX_REQUEST_BODY_BYTES);
    let half = vec![7u8; MAX_REQUEST_BODY_BYTES / 2];
    assert!(exact.push(&half));
    assert!(exact.push(&half));
    assert_eq!(exact.len(), 16 * 1024 * 1024);
    assert!(!exact.push(&[1]));
    assert_eq!(exact.len(), 16 * 1024 * 1024);
    assert_eq!(ProxyError::BodyTooLarge.status(), 413);
    assert_eq!(ProxyError::BodyTooLarge.code(), "body_too_large");
    let mut small = BodyBuffer::new(4);
    assert!(small.push(b"ab"));
    assert!(small.push(b"cd"));
    assert_eq!(small.into_bytes(), b"abcd".to_vec());
}

#[test]
fn api_key_extraction() {
    assert_eq!(extract_api_key(Some(" k "), Some("Bearer other")), Some("k".to_string()));
    assert_eq!(extract_api_key(Some("  "), Some("Bearer k1")), Some("k1".to_string()));
    assert_eq!(extract_api_key(None, Some("bearer k2 ")), Some("k2".to_string()));
    assert_eq!(extract_api_key(None, Some("rawkey")), Some("rawkey".to_string()));
    assert_eq!(extract_api_key(None, Some("   ")), None);
    assert_eq!(extract_api_key(None, None), None);
}

#[test]
fn caller_gate_order() {
    assert_eq!(check_caller(false, true, Some(1)), Some(ProxyError::ProxyUnauthorized));
    assert_eq!(check_caller(true, false, None), Some(ProxyError::ApiKeyRequired));
    assert_eq!(check_caller(true, true, None), Some(ProxyError::ApiKeyInvalid));
    assert_eq!(check_caller(true, true, Some(-1)), Some(ProxyError::BalanceInsufficient));
    assert_eq!(check_caller(true, true, Some(0)), None);
    assert_eq!(ProxyError::ModelUnavailable.status(), 503);
    assert_eq!(ProxyError::UpstreamTimeout.code(), "upstream_timeout");
}

#[test]
fn model_resolution() {
    assert_eq!(path_model("/v1/models/gpt-4"), Some("gpt-4".to_string()));
    assert_eq!(path_model("/v1/models/"), None);
    assert_eq!(path_model("/v1/chat/completions"), None);
    assert_eq!(choose_model(Some("m".to_string()), "/v1/models/x"), Some("m".to_string()));
    assert_eq!(choose_model(None, "/v1/models/x"), Some("x".to_string()));
    assert!(is_models_list(true, "/v1/models/"));
    assert!(!is_models_list(false, "/v1/models"));
    assert!(is_chat_completions("/v1/chat/completions"));
    assert!(body_is_json(3, ""));
    assert!(body_is_json(3, "application/json; charset=utf-8"));
    assert!(!body_is_json(3, "text/plain"));
    assert!(!body_is_json(0, ""));
}

#[test]
fn error_bodies() {
    assert_eq!(escape_json("a\"b\\c\nd\te\r"), "a\\\"b\\\\c\\nd\\te\\r");
    assert_eq!(
        json_error_body("no \"key\"", "api_key_required"),
        r#"{"error":{"message":"no \"key\"","type":"proxy_error","param":null,"code":"api_key_required"}}"#
    );
}

#[test]
fn hop_headers_and_retry() {
    for h in ["connection", "host", "proxy-connection", "te", "trailer", "transfer-encoding", "upgrade", "x-proxy-token", "x-admin-token", "proxy-authorization", "proxy-authenticate"] {
        assert!(is_hop_header(h));
    }
    assert!(!is_hop_header("authorization"));
    assert!(should_retry(429, 0));
    assert!(should_retry(429, 4));
    assert!(!should_retry(429, 5));
    assert!(!should_retry(500, 0));
    assert_eq!(usage_modes(true, "text/event-stream; charset=utf-8"), (true, false));
    assert_eq!(usage_modes(true, "application/json"), (false, true));
    assert_eq!(usage_modes(false, "text/plain"), (false, true));
}

#[test]
fn usage_numbers_and_total_synthesis() {
    assert_eq!(usage_from_numbers(Some(3), Some(7), None), Some(UsageTokens { prompt: 3, completion: 7, total: 10 }));
    assert_eq!(usage_from_numbers(None, None, None), None);
    assert_eq!(usage_from_numbers(Some(3), None, None), Some(UsageTokens { prompt: 3, completion: 0, total: 0 }));
    let body = br#"{"id":"x","usage":{"prompt_tokens":5,"completion_tokens":6,"total_tokens":11}}"#;
    assert_eq!(usage_from_json_bytes(body), Some(UsageTokens { prompt: 5, completion: 6, total: 11 }));
    assert_eq!(usage_from_json_bytes(b"{\"usage\":{\"prompt_tokens\":2,\"completion_tokens\":2}}").unwrap().total, 4);
    assert_eq!(usage_from_json_bytes(b"not json"), None);
    assert_eq!(usage_from_json_bytes(b"{\"choices\":[]}"), None);
}

#[test]
fn streaming_usage_extraction() {
    let stream = b"data: {\"choices\":[{\"delta\":{\"content\":\"hi\"}}]}\n\ndata: {\"choices\":[]}\n\ndata: {\"usage\":{\"prompt_tokens\":3,\"completion_tokens\":7,\"total_tokens\":10}}\n\ndata: [DONE]\n\n";
    let mut buf = LineBuffer::new();
    let found = parse_sse_usage(&mut buf, stream);
    assert_eq!(found, Some(UsageTokens { prompt: 3, completion: 7, total: 10 }));
    let mut billing = gptload_rs::billing::BillingStore::new();
    billing.create_key("k".to_string(), 100);
    assert_eq!(billing.apply_usage("k", found.unwrap().total), Some(90));
}

#[test]
fn sse_line_split_across_chunks() {
    let stream: &[u8] = b"data: {\"usage\":{\"prompt_tokens\":1,\"completion_tokens\":2,\"total_tokens\":3}}\n";
    for cut in 1..stream.len() {
        let mut buf = LineBuffer::new();
        let a = parse_sse_usage(&mut buf, &stream[..cut]);
        let b = parse_sse_usage(&mut buf, &stream[cut..]);
        assert_eq!(a, None);
        assert_eq!(b, Some(UsageTokens { prompt: 1, completion: 2, total: 3 }));
    }
}

#[test]
fn sse_crlf_line_endings() {
    let lf = b"data: {\"usage\":{\"total_tokens\":9}}\n";
    let crlf = b"data: {\"usage\":{\"total_tokens\":9}}\r\n";
    let mut b1 = LineBuffer::new();
    let mut b2 = LineBuffer::new();
    assert_eq!(parse_sse_usage(&mut b1, lf), parse_sse_usage(&mut b2, crlf));
    let mut b3 = LineBuffer::new();
    assert_eq!(parse_sse_usage(&mut b3, crlf).unwrap().total, 9);
}

#[test]
fn plain_text_keys_crlf_and_lf() {
    let lf = parse_text_keys(b"k1\n  k2  \n\nk3").unwrap();
    let crlf = parse_text_keys(b"k1\r\n  k2  \r\n\r\nk3\r\n").unwrap();
    assert_eq!(lf, strings(&["k1", "k2", "k3"]));
    assert_eq!(crlf, lf);
    assert_eq!(parse_text_keys(&[0xff, 0xfe, b'\n']), None);
}

#[test]
fn key_dedupe_and_validation() {
    assert_eq!(dedupe_keys(&strings(&[" a ", "b", "a", "", "b", "c"])), strings(&["a", "b", "c"]));
    assert_eq!(validate_keys(&strings(&["ok"])), Ok(()));
    assert_eq!(validate_keys(&strings(&["", "  "])), Err(RouterError::NoKeys));
    assert_eq!(validate_keys(&strings(&["bad\u{1}"])), Err(RouterError::InvalidKey));
}

#[test]
fn stream_usage_hint_is_idempotent() {
    let mut v = parse_request_json("application/json", br#"{"model":"gpt","stream":true}"#).unwrap();
    let once = inject_usage_hint(&mut v).unwrap();
    assert_eq!(inject_usage_hint(&mut v), None);
    assert!(!ensure_stream_usage(&mut v));
    let text = String::from_utf8(once).unwrap();
    assert!(text.contains("\"include_usage\":true"));

    let mut off = parse_request_json("", br#"{"model":"gpt","stream_options":{"include_usage":false},"stream":true}"#).unwrap();
    assert!(ensure_stream_usage(&mut off));
    assert!(!ensure_stream_usage(&mut off));
    let mut plain = parse_request_json("", br#"{"model":"gpt"}"#).unwrap();
    assert!(!ensure_stream_usage(&mut plain));
    assert!(parse_request_json("text/plain", br#"{"model":"gpt"}"#).is_none());
    assert!(parse_request_json("", b"").is_none());
    let shape = StreamShape { is_object: true, stream: true, options: OptionsShape::NotObject };
    assert!(!plan_usage_hint(shape));
}
