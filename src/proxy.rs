use crate::router::{RouterState, Selected, Upstream};
use crate::sets::set_items;
use crate::text::{is_prefix, starts_with, text_eq, trim_text, trimmed};
use vstd::prelude::*;

verus! {

/// Largest request body the proxy buffers.
pub const MAX_REQUEST_BODY_BYTES: usize = 16 * 1024 * 1024;

/// Attempts with another credential after a `429`.
pub const MAX_RETRIES: usize = 5;

/// Failures the proxy reports to its caller, with their HTTP status and code.
#[derive(Clone, Copy, Debug, PartialEq, Eq)]
pub enum ProxyError {
    BadRequest,
    ModelRequired,
    ProxyUnauthorized,
    AdminUnauthorized,
    ApiKeyRequired,
    ApiKeyInvalid,
    BalanceInsufficient,
    NotFound,
    ModelNotFound,
    KeyNotFound,
    MethodNotAllowed,
    KeyExists,
    BodyTooLarge,
    InternalError,
    BillingError,
    UpstreamError,
    BodyReadError,
    InvalidUpstreamUri,
    ModelUnavailable,
    UpstreamTimeout,
}

impl ProxyError {
    pub open spec fn status_spec(&self) -> u16 {
        match *self {
            ProxyError::BadRequest | ProxyError::ModelRequired => 400,
            ProxyError::ProxyUnauthorized | ProxyError::AdminUnauthorized | ProxyError::ApiKeyRequired
            | ProxyError::ApiKeyInvalid | ProxyError::BalanceInsufficient => 401,
            ProxyError::NotFound | ProxyError::ModelNotFound | ProxyError::KeyNotFound => 404,
            ProxyError::MethodNotAllowed => 405,
            ProxyError::KeyExists => 409,
            ProxyError::BodyTooLarge => 413,
            ProxyError::InternalError | ProxyError::BillingError => 500,
            ProxyError::UpstreamError | ProxyError::BodyReadError | ProxyError::InvalidUpstreamUri => 502,
            ProxyError::ModelUnavailable => 503,
            ProxyError::UpstreamTimeout => 504,
        }
    }

    pub fn status(&self) -> (r: u16)
        ensures
            r == self.status_spec(),
    {
        match self {
            ProxyError::BadRequest | ProxyError::ModelRequired => 400,
            ProxyError::ProxyUnauthorized | ProxyError::AdminUnauthorized | ProxyError::ApiKeyRequired
            | ProxyError::ApiKeyInvalid | ProxyError::BalanceInsufficient => 401,
            ProxyError::NotFound | ProxyError::ModelNotFound | ProxyError::KeyNotFound => 404,
            ProxyError::MethodNotAllowed => 405,
            ProxyError::KeyExists => 409,
            ProxyError::BodyTooLarge => 413,
            ProxyError::InternalError | ProxyError::BillingError => 500,
            ProxyError::UpstreamError | ProxyError::BodyReadError | ProxyError::InvalidUpstreamUri => 502,
            ProxyError::ModelUnavailable => 503,
            ProxyError::UpstreamTimeout => 504,
        }
    }

    /// The machine-readable `code` of the error body.
    pub fn code(&self) -> &'static str {
        match self {
            ProxyError::BadRequest => "bad_request",
            ProxyError::ModelRequired => "model_required",
            ProxyError::ProxyUnauthorized => "proxy_unauthorized",
            ProxyError::AdminUnauthorized => "admin_unauthorized",
            ProxyError::ApiKeyRequired => "api_key_required",
            ProxyError::ApiKeyInvalid => "api_key_invalid",
            ProxyError::BalanceInsufficient => "balance_insufficient",
            ProxyError::NotFound => "not_found",
            ProxyError::ModelNotFound => "model_not_found",
            ProxyError::KeyNotFound => "key_not_found",
            ProxyError::MethodNotAllowed => "method_not_allowed",
            ProxyError::KeyExists => "key_exists",
            ProxyError::BodyTooLarge => "body_too_large",
            ProxyError::InternalError => "internal_error",
            ProxyError::BillingError => "billing_error",
            ProxyError::UpstreamError => "upstream_error",
            ProxyError::BodyReadError => "body_read_error",
            ProxyError::InvalidUpstreamUri => "invalid_upstream_uri",
            ProxyError::ModelUnavailable => "model_unavailable",
            ProxyError::UpstreamTimeout => "upstream_timeout",
        }
    }
}

/// How a character is written inside a JSON string.
pub open spec fn escape_char(c: char) -> Seq<char> {
    if c == '\\' {
        seq!['\\', '\\']
    } else if c == '"' {
        seq!['\\', '"']
    } else if c == '\n' {
        seq!['\\', 'n']
    } else if c == '\r' {
        seq!['\\', 'r']
    } else if c == '\t' {
        seq!['\\', 't']
    } else {
        seq![c]
    }
}

pub open spec fn escaped(s: Seq<char>) -> Seq<char>
    decreases s.len(),
{
    if s.len() == 0 {
        Seq::empty()
    } else {
        escaped(s.drop_last()) + escape_char(s.last())
    }
}

/// Escapes backslash, quote, newline, carriage return and tab.
pub fn escape_json(s: &str) -> (r: String)
    ensures
        r@ == escaped(s@),
{
    let n = s.unicode_len();
    let mut out = String::new();
    let mut i: usize = 0;
    while i < n
        invariant
            n == s@.len(),
            i <= n,
            out@ == escaped(s@.subrange(0, i as int)),
        decreases n - i,
    {
        assert(s@.subrange(0, i + 1).drop_last() =~= s@.subrange(0, i as int));
        let c = s.get_char(i);
        if c == '\\' {
            out.append("\\\\");
        } else if c == '"' {
            out.append("\\\"");
        } else if c == '\n' {
            out.append("\\n");
        } else if c == '\r' {
            out.append("\\r");
        } else if c == '\t' {
            out.append("\\t");
        } else {
            out.append(s.substring_char(i, i + 1));
        }
        proof {
            reveal_strlit("\\\\");
            reveal_strlit("\\\"");
            reveal_strlit("\\n");
            reveal_strlit("\\r");
            reveal_strlit("\\t");
            assert(escape_char(c) =~= if c == '\\' {
                "\\\\"@
            } else if c == '"' {
                "\\\""@
            } else if c == '\n' {
                "\\n"@
            } else if c == '\r' {
                "\\r"@
            } else if c == '\t' {
                "\\t"@
            } else {
                s@.subrange(i as int, i + 1)
            });
        }
        i = i + 1;
    }
    assert(s@.subrange(0, n as int) =~= s@);
    out
}

/// The body of an error response:
/// `{"error":{"message":M,"type":"proxy_error","param":null,"code":C}}`.
pub fn json_error_body(message: &str, code: &str) -> (r: String)
    ensures
        r@ == "{\"error\":{\"message\":\""@ + escaped(message@) + "\",\"type\":\"proxy_error\",\"param\":null,\"code\":\""@
            + escaped(code@) + "\"}}"@,
{
    let mut out = "{\"error\":{\"message\":\"".to_owned();
    out.append(escape_json(message).as_str());
    out.append("\",\"type\":\"proxy_error\",\"param\":null,\"code\":\"");
    out.append(escape_json(code).as_str());
    out.append("\"}}");
    out
}

pub open spec fn from_api_key_header(x: Option<Seq<char>>) -> Option<Seq<char>> {
    match x {
        Some(h) => if trimmed(h).len() > 0 {
            Some(trimmed(h))
        } else {
            None
        },
        None => None,
    }
}

pub open spec fn from_authorization(a: Seq<char>) -> Option<Seq<char>> {
    let raw = trimmed(a);
    if raw.len() == 0 {
        None
    } else {
        let k = if is_prefix("Bearer "@, raw) {
            trimmed(raw.subrange("Bearer "@.len() as int, raw.len() as int))
        } else if is_prefix("bearer "@, raw) {
            trimmed(raw.subrange("bearer "@.len() as int, raw.len() as int))
        } else {
            trimmed(raw)
        };
        if k.len() > 0 {
            Some(k)
        } else {
            None
        }
    }
}

/// The caller's billing key: `X-API-Key`, else the `Authorization` value
/// without a `Bearer `/`bearer ` prefix, each trimmed; blanks do not count.
pub open spec fn api_key_spec(x: Option<Seq<char>>, auth: Option<Seq<char>>) -> Option<Seq<char>> {
    match from_api_key_header(x) {
        Some(k) => Some(k),
        None => match auth {
            Some(a) => from_authorization(a),
            None => None,
        },
    }
}

fn strip_then_trim(raw: &str, prefix: &str) -> (r: Option<String>)
    ensures
        match r {
            Some(k) => is_prefix(prefix@, raw@) && k@ == trimmed(raw@.subrange(prefix@.len() as int, raw@.len() as int)),
            None => !is_prefix(prefix@, raw@),
        },
{
    if starts_with(raw, prefix) {
        let plen = prefix.unicode_len();
        let n = raw.unicode_len();
        Some(trim_text(raw.substring_char(plen, n)))
    } else {
        None
    }
}

/// Finds the billing key in the `X-API-Key` and `Authorization` headers.
pub fn extract_api_key(x_api_key: Option<&str>, authorization: Option<&str>) -> (r: Option<String>)
    ensures
        match r {
            Some(k) => api_key_spec(
                match x_api_key { Some(h) => Some(h@), None => None },
                match authorization { Some(a) => Some(a@), None => None },
            ) == Some(k@),
            None => api_key_spec(
                match x_api_key { Some(h) => Some(h@), None => None },
                match authorization { Some(a) => Some(a@), None => None },
            ) is None,
        },
{
    if let Some(h) = x_api_key {
        let key = trim_text(h);
        if key.as_str().unicode_len() != 0 {
            return Some(key);
        }
    }
    if let Some(a) = authorization {
        let raw = trim_text(a);
        if raw.as_str().unicode_len() == 0 {
            return None;
        }
        let key = match strip_then_trim(raw.as_str(), "Bearer ") {
            Some(k) => k,
            None => match strip_then_trim(raw.as_str(), "bearer ") {
                Some(k) => k,
                None => trim_text(raw.as_str()),
            },
        };
        if key.as_str().unicode_len() != 0 {
            return Some(key);
        }
    }
    None
}

/// The model named by a `/v1/models/<name>` path.
pub fn path_model(path: &str) -> (r: Option<String>)
    ensures
        match r {
            Some(m) => is_prefix("/v1/models/"@, path@) && m@ == path@.subrange("/v1/models/"@.len() as int, path@.len() as int) && m@.len() > 0,
            None => !is_prefix("/v1/models/"@, path@) || path@.len() == "/v1/models/"@.len(),
        },
{
    let prefix = "/v1/models/";
    if !starts_with(path, prefix) {
        return None;
    }
    let plen = prefix.unicode_len();
    let n = path.unicode_len();
    if n == plen {
        return None;
    }
    Some(path.substring_char(plen, n).to_owned())
}

/// The model of a request: the body's `model` member, else the path's.
pub fn choose_model(body_model: Option<String>, path: &str) -> (r: Option<String>)
    ensures
        body_model is Some ==> r == body_model,
        body_model is None ==> match r {
            Some(m) => is_prefix("/v1/models/"@, path@) && m@ == path@.subrange("/v1/models/"@.len() as int, path@.len() as int) && m@.len() > 0,
            None => !is_prefix("/v1/models/"@, path@) || path@.len() == "/v1/models/"@.len(),
        },
{
    match body_model {
        Some(m) => Some(m),
        None => path_model(path),
    }
}

/// `GET /v1/models`, with or without the trailing slash, is answered locally.
pub fn is_models_list(is_get: bool, path: &str) -> (r: bool)
    ensures
        r == (is_get && (path@ == "/v1/models"@ || path@ == "/v1/models/"@)),
{
    is_get && (text_eq(path, "/v1/models") || text_eq(path, "/v1/models/"))
}

pub fn is_chat_completions(path: &str) -> (r: bool)
    ensures
        r == (path@ == "/v1/chat/completions"@ || path@ == "/v1/chat/completions/"@),
{
    text_eq(path, "/v1/chat/completions") || text_eq(path, "/v1/chat/completions/")
}

/// Headers that are never forwarded, either way: hop-by-hop headers and the
/// proxy's own credentials. Names are compared in lower case.
pub open spec fn hop_header(name: Seq<char>) -> bool {
    name == "connection"@ || name == "host"@ || name == "proxy-connection"@ || name == "proxy-authenticate"@
        || name == "proxy-authorization"@ || name == "te"@ || name == "trailer"@ || name == "transfer-encoding"@
        || name == "upgrade"@ || name == "x-proxy-token"@ || name == "x-admin-token"@
}

pub fn is_hop_header(name: &str) -> (r: bool)
    ensures
        r == hop_header(name@),
{
    text_eq(name, "connection") || text_eq(name, "host") || text_eq(name, "proxy-connection")
        || text_eq(name, "proxy-authenticate") || text_eq(name, "proxy-authorization") || text_eq(name, "te")
        || text_eq(name, "trailer") || text_eq(name, "transfer-encoding") || text_eq(name, "upgrade")
        || text_eq(name, "x-proxy-token") || text_eq(name, "x-admin-token")
}

/// What the caller's credentials allow.
pub open spec fn caller_gate(proxy_ok: bool, key_found: bool, balance: Option<i64>) -> Option<ProxyError> {
    if !proxy_ok {
        Some(ProxyError::ProxyUnauthorized)
    } else if !key_found {
        Some(ProxyError::ApiKeyRequired)
    } else {
        match balance {
            None => Some(ProxyError::ApiKeyInvalid),
            Some(b) => if b < 0 {
                Some(ProxyError::BalanceInsufficient)
            } else {
                None
            },
        }
    }
}

/// Checks proxy authorization, the billing key and its balance, in that
/// order; a balance below zero refuses the request.
pub fn check_caller(proxy_ok: bool, key_found: bool, balance: Option<i64>) -> (r: Option<ProxyError>)
    ensures
        r == caller_gate(proxy_ok, key_found, balance),
{
    if !proxy_ok {
        Some(ProxyError::ProxyUnauthorized)
    } else if !key_found {
        Some(ProxyError::ApiKeyRequired)
    } else {
        match balance {
            None => Some(ProxyError::ApiKeyInvalid),
            Some(b) => if b < 0 {
                Some(ProxyError::BalanceInsufficient)
            } else {
                None
            },
        }
    }
}

/// After a `429`, another credential is tried while retries remain.
pub fn should_retry(status: u16, retries_done: usize) -> (r: bool)
    ensures
        r == (status == 429 && retries_done < MAX_RETRIES),
{
    status == 429 && retries_done < MAX_RETRIES
}

/// Collects a body in memory up to a limit.
pub struct BodyBuffer {
    bytes: Vec<u8>,
    limit: usize,
}

impl BodyBuffer {
    pub closed spec fn content(&self) -> Seq<u8> {
        self.bytes@
    }

    pub closed spec fn limit_spec(&self) -> nat {
        self.limit as nat
    }

    pub fn new(limit: usize) -> (r: BodyBuffer)
        ensures
            r.content() == Seq::<u8>::empty(),
            r.limit_spec() == limit,
    {
        BodyBuffer { bytes: Vec::new(), limit }
    }

    /// Appends a chunk; `false`, with nothing appended, when the body would
    /// grow past the limit.
    pub fn push(&mut self, chunk: &[u8]) -> (r: bool)
        ensures
            final(self).limit_spec() == old(self).limit_spec(),
            r == (old(self).content().len() + chunk@.len() <= old(self).limit_spec()),
            r ==> final(self).content() == old(self).content() + chunk@,
            !r ==> final(self).content() == old(self).content(),
    {
        if chunk.len() > self.limit || self.bytes.len() > self.limit - chunk.len() {
            return false;
        }
        let mut i: usize = 0;
        let ghost start = self.bytes@;
        while i < chunk.len()
            invariant
                i <= chunk@.len(),
                self.limit == old(self).limit,
                start == old(self).bytes@,
                self.bytes@ == start + chunk@.subrange(0, i as int),
            decreases chunk@.len() - i,
        {
            self.bytes.push(chunk[i]);
            i = i + 1;
            assert(self.bytes@ =~= start + chunk@.subrange(0, i as int));
        }
        assert(chunk@.subrange(0, i as int) =~= chunk@);
        true
    }

    pub fn len(&self) -> (r: usize)
        ensures
            r == self.content().len(),
    {
        self.bytes.len()
    }

    pub fn into_bytes(self) -> (r: Vec<u8>)
        ensures
            r@ == self.content(),
    {
        self.bytes
    }
}

/// A body of exactly the limit is accepted; one more byte is refused.
pub proof fn lemma_body_limit_edge(held: nat, chunk: nat, limit: nat)
    ensures
        held + chunk == limit ==> held + chunk <= limit,
        held + chunk == limit + 1 ==> !(held + chunk <= limit),
{
}

/// Which extractor reads a response: SSE for a streaming request answered
/// with an event stream; JSON for any non-streaming request, or for a JSON
/// answer to a streaming one.
pub fn usage_modes(stream_request: bool, content_type: &str) -> (r: (bool, bool))
    ensures
        r.0 == (stream_request && is_prefix("text/event-stream"@, content_type@)),
        r.1 == (!stream_request || (is_prefix("application/json"@, content_type@) && !r.0)),
{
    let is_event_stream = starts_with(content_type, "text/event-stream");
    let want_sse = stream_request && is_event_stream;
    let want_json = !stream_request || (starts_with(content_type, "application/json") && !want_sse);
    (want_sse, want_json)
}

/// Whether a request body is read as JSON: non-empty and with no content
/// type or a JSON one.
pub fn body_is_json(body_len: usize, content_type: &str) -> (r: bool)
    ensures
        r == (body_len > 0 && (content_type@.len() == 0 || is_prefix("application/json"@, content_type@))),
{
    body_len > 0 && (content_type.unicode_len() == 0 || starts_with(content_type, "application/json"))
}

/// A path without its leading `/` characters.
pub open spec fn drop_leading_slashes(s: Seq<char>) -> Seq<char>
    decreases s.len(),
{
    if s.len() > 0 && s[0] == '/' {
        drop_leading_slashes(s.drop_first())
    } else {
        s
    }
}

pub open spec fn query_suffix(query: Option<Seq<char>>) -> Seq<char> {
    match query {
        Some(q) => "?"@ + q,
        None => Seq::empty(),
    }
}

/// The upstream path and query for a request path and query.
pub open spec fn joined_target(base: Seq<char>, path: Seq<char>, query: Option<Seq<char>>) -> Seq<char> {
    if base.len() == 0 {
        path + query_suffix(query)
    } else {
        let sep = if base.last() == '/' {
            Seq::empty()
        } else {
            "/"@
        };
        base + sep + drop_leading_slashes(path) + query_suffix(query)
    }
}

impl Upstream {
    /// Path and query to request upstream: the original one when the base
    /// URL has no path prefix, else the prefix, one `/`, and the original
    /// path without its leading slashes, then the query.
    pub fn target_path(&self, path: &str, query: Option<&str>) -> (r: String)
        ensures
            r@ == joined_target(
                self.base_path@,
                path@,
                match query {
                    Some(q) => Some(q@),
                    None => None,
                },
            ),
    {
        let ghost gq = match query {
            Some(q) => Some(q@),
            None => None::<Seq<char>>,
        };
        if self.base_path.as_str().unicode_len() == 0 {
            let mut out = path.to_owned();
            if let Some(q) = query {
                out.append("?");
                out.append(q);
                assert(out@ =~= path@ + query_suffix(gq));
            } else {
                assert(out@ =~= path@ + query_suffix(gq));
            }
            return out;
        }
        let mut out = self.base_path.clone();
        let n = out.as_str().unicode_len();
        if out.as_str().get_char(n - 1) != '/' {
            out.append("/");
        } else {
            assert(out@ =~= self.base_path@ + Seq::<char>::empty());
        }
        let m = path.unicode_len();
        let mut s: usize = 0;
        assert(path@.subrange(0, m as int) =~= path@);
        while s < m && path.get_char(s) == '/'
            invariant
                s <= m,
                m == path@.len(),
                drop_leading_slashes(path@) == drop_leading_slashes(path@.subrange(s as int, m as int)),
            decreases m - s,
        {
            assert(path@.subrange(s as int, m as int).drop_first() =~= path@.subrange(s + 1, m as int));
            s = s + 1;
        }
        proof {
            if s < m {
                assert(path@.subrange(s as int, m as int)[0] == path@[s as int]);
            }
        }
        let ghost prefix = out@;
        out.append(path.substring_char(s, m));
        let ghost mid = out@;
        if let Some(q) = query {
            out.append("?");
            out.append(q);
            assert(out@ =~= mid + query_suffix(gq));
        } else {
            assert(out@ =~= mid + query_suffix(gq));
        }
        out
    }
}

/// The error a failed round trip is answered with: `504` after the
/// deadline, `502` for any other transport failure.
pub fn round_trip_error(timed_out: bool) -> (r: ProxyError)
    ensures
        r == if timed_out { ProxyError::UpstreamTimeout } else { ProxyError::UpstreamError },
        r.status_spec() == if timed_out { 504u16 } else { 502u16 },
{
    if timed_out {
        ProxyError::UpstreamTimeout
    } else {
        ProxyError::UpstreamError
    }
}

/// What a forwarded request goes to: its model, the first upstream and
/// credential, and whether the usage hint is written into its body.
pub struct ForwardPlan {
    pub model: String,
    pub selected: Selected,
    pub inject_hint: bool,
}

impl RouterState {
    /// Plans a forwarded request after its body is read: the model from the
    /// body or the `/v1/models/<name>` path (else `400 model_required`), an
    /// upstream that advertises it (else `404 model_not_found`), a selection
    /// for it (else `503 model_unavailable`), and the usage hint for a
    /// streaming chat completion routed to an upstream in the hint set.
    pub fn plan_forward(&mut self, body_model: Option<String>, path: &str, stream_request: bool, now_ms: u64) -> (r: Result<ForwardPlan, ProxyError>)
        requires
            old(self).wf(),
        ensures
            final(self).wf(),
            final(self).generation == old(self).generation,
            body_model is None && (!is_prefix("/v1/models/"@, path@) || path@.len() == "/v1/models/"@.len())
                <==> r == Err::<ForwardPlan, ProxyError>(ProxyError::ModelRequired),
            r matches Err(e) ==> (e == ProxyError::ModelRequired || e == ProxyError::ModelNotFound || e == ProxyError::ModelUnavailable),
            r matches Ok(p) ==> {
                &&& (body_model matches Some(m) ==> p.model == m)
                &&& (exists|i: int| 0 <= i < old(self).snapshot.upstreams@.len()
                    && set_items(#[trigger] old(self).snapshot.upstreams@[i].models).contains(p.model@))
                &&& old(self).selection_ok(Some(p.selected), Some(p.model@), now_ms)
                &&& p.inject_hint == (stream_request && (path@ == "/v1/chat/completions"@ || path@ == "/v1/chat/completions/"@)
                    && (old(self).usage_inject_upstreams matches Some(s)
                        && set_items(s).contains(old(self).snapshot.upstreams@[p.selected.upstream as int].id@)))
            },
            r == Err::<ForwardPlan, ProxyError>(ProxyError::ModelNotFound) ==> forall|i: int| 0 <= i < old(self).snapshot.upstreams@.len()
                ==> !set_items(#[trigger] old(self).snapshot.upstreams@[i].models).contains(choose_model_spec(body_model, path@)),
            r == Err::<ForwardPlan, ProxyError>(ProxyError::ModelUnavailable) ==> !old(self).snapshot.any_eligible(Some(choose_model_spec(body_model, path@)), now_ms),
    {
        let model = match choose_model(body_model, path) {
            Some(m) => m,
            None => return Err(ProxyError::ModelRequired),
        };
        if !self.model_exists(model.as_str()) {
            return Err(ProxyError::ModelNotFound);
        }
        let sel = match self.select_for_model(model.as_str(), now_ms) {
            Some(s) => s,
            None => return Err(ProxyError::ModelUnavailable),
        };
        let inject = stream_request && is_chat_completions(path)
            && self.should_inject_usage(self.snapshot.upstreams[sel.upstream].id.as_str());
        proof {
            assert(self.snapshot.upstreams@[sel.upstream as int].same_routing(&old(self).snapshot.upstreams@[sel.upstream as int]));
        }
        Ok(ForwardPlan { model, selected: sel, inject_hint: inject })
    }
}

/// The model `choose_model` settles on, as text (empty when there is none).
pub open spec fn choose_model_spec(body_model: Option<String>, path: Seq<char>) -> Seq<char> {
    match body_model {
        Some(m) => m@,
        None => path.subrange("/v1/models/"@.len() as int, path.len() as int),
    }
}

} // verus!
