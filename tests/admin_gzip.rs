use gptload_rs::admin::{clamp_param, flag_on, query_get, route_admin, AdminRoute, RouteKind};

fn r(kind: RouteKind, target: &str) -> AdminRoute {
    AdminRoute { kind, target: target.to_string() }
}
use gptload_rs::gzip::GzipDecoder;
use gptload_rs::usage::{UsageTee, UsageTokens};
use gptload_rs::usage::usage_from_json_bytes;
use std::io::Write;

#[test]
fn admin_routes() {
    assert_eq!(route_admin("GET", "/admin/api/v1/upstreams"), r(RouteKind::ListUpstreams, ""));
    assert_eq!(route_admin("POST", "/admin/api/v1/upstreams"), r(RouteKind::AddUpstream, ""));
    assert_eq!(route_admin("GET", "/admin/api/v1/stats/stream"), r(RouteKind::StatsStream, ""));
    assert_eq!(route_admin("PUT", "/admin/api/v1/models/routes"), r(RouteKind::PutModelRoutes, ""));
    assert_eq!(route_admin("GET", "/admin/api/v1/billing/keys/k1"), r(RouteKind::GetBalance, "k1"));
    assert_eq!(route_admin("POST", "/admin/api/v1/billing/keys/k1/adjust"), r(RouteKind::AdjustBalance, "k1"));
    assert_eq!(route_admin("PUT", "/admin/api/v1/billing/keys/k1"), r(RouteKind::MethodNotAllowed, ""));
    assert_eq!(route_admin("GET", "/admin/api/v1/billing/keys/k1/other"), r(RouteKind::NotFound, ""));
    assert_eq!(route_admin("GET", "/admin/api/v1/billing/keys/"), r(RouteKind::MissingId, ""));
    assert_eq!(route_admin("PUT", "/admin/api/v1/upstreams/u1"), r(RouteKind::UpdateUpstream, "u1"));
    assert_eq!(route_admin("DELETE", "/admin/api/v1/upstreams/u1"), r(RouteKind::DeleteUpstream, "u1"));
    assert_eq!(route_admin("GET", "/admin/api/v1/upstreams/u1"), r(RouteKind::MethodNotAllowed, ""));
    assert_eq!(route_admin("POST", "/admin/api/v1/upstreams/u1/models/refresh"), r(RouteKind::RefreshModels, "u1"));
    assert_eq!(route_admin("GET", "/admin/api/v1/upstreams/u1/models/refresh"), r(RouteKind::MethodNotAllowed, ""));
    assert_eq!(route_admin("POST", "/admin/api/v1/upstreams/u1/keys"), r(RouteKind::AddKeys, "u1"));
    assert_eq!(route_admin("GET", "/admin/api/v1/upstreams/u1/keys"), r(RouteKind::ListKeys, "u1"));
    assert_eq!(route_admin("PATCH", "/admin/api/v1/upstreams/u1/keys"), r(RouteKind::MethodNotAllowed, ""));
    assert_eq!(route_admin("GET", "/admin/api/v1/upstreams/u1/other"), r(RouteKind::NotFound, ""));
    assert_eq!(route_admin("GET", "/admin/api/v1/nothing"), r(RouteKind::NotFound, ""));
}

#[test]
fn query_parameters() {
    assert_eq!(query_get("limit=5&window=hour", "window"), Some("hour".to_string()));
    assert_eq!(query_get("limit=5&window=hour", "limit"), Some("5".to_string()));
    assert_eq!(query_get("a=1=2", "a"), Some("1=2".to_string()));
    assert_eq!(query_get("flag&x=1", "flag"), None);
    assert_eq!(query_get("x=1", "y"), None);
    assert_eq!(clamp_param(None, 200, 1, 5000), 200);
    assert_eq!(clamp_param(Some(0), 200, 1, 5000), 1);
    assert_eq!(clamp_param(Some(9000), 200, 1, 5000), 5000);
    assert!(flag_on("1"));
    assert!(flag_on("TrUe"));
    assert!(!flag_on("yes"));
}

#[test]
fn gzip_body_is_decoded_in_chunks() {
    let text = br#"{"usage":{"prompt_tokens":2,"completion_tokens":3,"total_tokens":5}}"#;
    let mut enc = flate2::write::GzEncoder::new(Vec::new(), flate2::Compression::default());
    enc.write_all(text).unwrap();
    let gz = enc.finish().unwrap();
    for cut in [1usize, 5, 11, gz.len() / 2] {
        let mut dec = GzipDecoder::new();
        let mut out = dec.decompress_chunk(&gz[..cut]).unwrap();
        out.extend(dec.decompress_chunk(&gz[cut..]).unwrap());
        assert_eq!(out, text.to_vec());
        assert_eq!(usage_from_json_bytes(&out).unwrap().total, 5);
    }
    let mut bad = GzipDecoder::new();
    assert!(bad.decompress_chunk(b"plain text").is_err());
    assert!(bad.decompress_chunk(&gz).is_err());
}

fn gz(data: &[u8]) -> Vec<u8> {
    let mut enc = flate2::write::GzEncoder::new(Vec::new(), flate2::Compression::default());
    enc.write_all(data).unwrap();
    enc.finish().unwrap()
}

#[test]
fn tee_keeps_the_last_sse_usage() {
    let stream = b"data: {\"usage\":{\"total_tokens\":4}}\n\ndata: {\"usage\":{\"prompt_tokens\":3,\"completion_tokens\":7,\"total_tokens\":10}}\n\ndata: [DONE]\n\n";
    let mut tee = UsageTee::new(true, "text/event-stream", false);
    for piece in stream.chunks(7) {
        tee.feed(piece);
    }
    assert_eq!(tee.finish(), Some(UsageTokens { prompt: 3, completion: 7, total: 10 }));
}

#[test]
fn tee_reads_json_and_gzip_bodies() {
    let body = br#"{"usage":{"prompt_tokens":1,"completion_tokens":1,"total_tokens":2}}"#;
    let mut tee = UsageTee::new(false, "application/json", false);
    tee.feed(&body[..10]);
    tee.feed(&body[10..]);
    assert_eq!(tee.finish().unwrap().total, 2);
    let packed = gz(body);
    let mut zipped = UsageTee::new(false, "application/json", true);
    for piece in packed.chunks(5) {
        zipped.feed(piece);
    }
    assert_eq!(zipped.finish().unwrap().total, 2);
    let mut broken = UsageTee::new(false, "application/json", true);
    broken.feed(body);
    assert_eq!(broken.finish(), None);
    let mut other = UsageTee::new(true, "text/plain", false);
    other.feed(body);
    assert_eq!(other.finish(), None);
}
