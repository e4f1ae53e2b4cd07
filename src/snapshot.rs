use crate::config::UpstreamConfig;
use crate::router::{
    header_safe, schedule_of, weights_of, KeyState, RouterSnapshot, Upstream, UpstreamStats,
    MAX_WEIGHT, lemma_schedule_len,
};
use crate::sets::{set_items, text_set_new};
use crate::text::{text_eq, trim_text, trimmed};
use vstd::prelude::*;

verus! {

/// Why a router configuration or mutation was refused.
#[derive(Clone, Copy, Debug, PartialEq, Eq)]
pub enum RouterError {
    NoUpstreams,
    DuplicateUpstream,
    InvalidBaseUrl,
    InvalidKey,
    NoKeys,
    UnknownUpstream,
    UpstreamExists,
}

impl RouterError {
    pub fn message(&self) -> &'static str {
        match self {
            RouterError::NoUpstreams => "no upstreams configured",
            RouterError::DuplicateUpstream => "duplicate upstream id",
            RouterError::InvalidBaseUrl => "base_url must have a scheme and an authority",
            RouterError::InvalidKey => "invalid key (cannot be used in HTTP header)",
            RouterError::NoKeys => "no keys provided",
            RouterError::UnknownUpstream => "unknown upstream id",
            RouterError::UpstreamExists => "upstream id already exists",
        }
    }
}

/// Scheme, authority and path of a URI, as `http::Uri` splits it.
pub uninterp spec fn uri_parts(s: Seq<char>) -> Option<(Seq<char>, Seq<char>, Seq<char>)>;

/// Relies on `http::Uri`'s `FromStr`, `scheme_str`, `authority` and `path`:
/// `None` when the text does not parse or lacks a scheme or an authority.
#[verifier::external_body]
fn split_base_url(s: &str) -> (r: Option<(String, String, String)>)
    ensures
        match r {
            Some((a, b, c)) => uri_parts(s@) == Some((a@, b@, c@)),
            None => uri_parts(s@) is None,
        },
{
    let u: http::Uri = s.parse().ok()?;
    let scheme = u.scheme_str()?.to_string();
    let authority = u.authority()?.as_str().to_string();
    Some((scheme, authority, u.path().to_string()))
}

/// Relies on `http::HeaderValue::from_str`, which accepts exactly the bytes
/// that are a tab or at least 32 and not 127.
#[verifier::external_body]
pub(crate) fn header_value_ok(s: &str) -> (r: bool)
    ensures
        r == header_safe(s@),
{
    http::HeaderValue::from_str(s).is_ok()
}

pub open spec fn strings_view(v: Seq<String>) -> Seq<Seq<char>> {
    v.map_values(|s: String| s@)
}

/// The credentials a list of lines yields: each trimmed, blanks dropped.
pub open spec fn usable_keys(ks: Seq<Seq<char>>) -> Seq<Seq<char>>
    decreases ks.len(),
{
    if ks.len() == 0 {
        Seq::empty()
    } else {
        let rest = usable_keys(ks.drop_last());
        let t = trimmed(ks.last());
        if t.len() > 0 {
            rest.push(t)
        } else {
            rest
        }
    }
}

pub open spec fn bearer(k: Seq<char>) -> Seq<char> {
    "Bearer "@ + k
}

/// Every usable credential gives a valid `Authorization` header.
pub open spec fn keys_header_safe(ks: Seq<Seq<char>>) -> bool {
    forall|i: int| 0 <= i < usable_keys(ks).len() ==> header_safe(bearer(#[trigger] usable_keys(ks)[i]))
}

proof fn lemma_usable_prefix(ks: Seq<Seq<char>>, n: int)
    requires
        0 <= n <= ks.len(),
    ensures
        usable_keys(ks.subrange(0, n)).len() <= usable_keys(ks).len(),
        usable_keys(ks.subrange(0, n)) == usable_keys(ks).subrange(0, usable_keys(ks.subrange(0, n)).len() as int),
    decreases ks.len(),
{
    if n < ks.len() {
        assert(ks.drop_last() =~= ks.subrange(0, ks.len() - 1));
        lemma_usable_prefix(ks.drop_last(), n);
        assert(ks.drop_last().subrange(0, n) =~= ks.subrange(0, n));
    } else {
        assert(ks.subrange(0, n) =~= ks);
    }
}

/// Credential states for the given lines: each trimmed, blanks dropped, all
/// off cooldown; refused when one cannot be sent in a header.
pub fn build_key_states(keys: &Vec<String>) -> (r: Result<Vec<KeyState>, RouterError>)
    ensures
        match r {
            Ok(v) => {
                &&& keys_header_safe(strings_view(keys@))
                &&& v@.len() == usable_keys(strings_view(keys@)).len()
                &&& forall|i: int| 0 <= i < v@.len() ==> {
                    &&& (#[trigger] v@[i]).key@ == usable_keys(strings_view(keys@))[i]
                    &&& v@[i].wf()
                    &&& v@[i].cooldown_until_ms == 0
                    &&& v@[i].fail_streak == 0
                }
            },
            Err(e) => e == RouterError::InvalidKey && !keys_header_safe(strings_view(keys@)),
        },
{
    let ghost ks = strings_view(keys@);
    let mut out: Vec<KeyState> = Vec::new();
    let mut i: usize = 0;
    while i < keys.len()
        invariant
            ks == strings_view(keys@),
            i <= keys@.len(),
            out@.len() == usable_keys(ks.subrange(0, i as int)).len(),
            forall|j: int| 0 <= j < out@.len() ==> {
                &&& (#[trigger] out@[j]).key@ == usable_keys(ks.subrange(0, i as int))[j]
                &&& out@[j].wf()
                &&& out@[j].cooldown_until_ms == 0
                &&& out@[j].fail_streak == 0
            },
        decreases keys@.len() - i,
    {
        let ghost prev = ks.subrange(0, i as int);
        assert(ks.subrange(0, i + 1).drop_last() =~= prev);
        assert(ks.subrange(0, i + 1).last() == keys@[i as int]@);
        let t = trim_text(keys[i].as_str());
        if t.as_str().unicode_len() != 0 {
            let mut header = "Bearer ".to_owned();
            header.append(t.as_str());
            if !header_value_ok(header.as_str()) {
                proof {
                    lemma_usable_prefix(ks, i + 1);
                    let u = usable_keys(ks.subrange(0, i + 1));
                    assert(u.last() == t@);
                    assert(usable_keys(ks)[u.len() - 1] == t@);
                }
                return Err(RouterError::InvalidKey);
            }
            out.push(KeyState { key: t, auth_header: header, cooldown_until_ms: 0, fail_streak: 0 });
        }
        i = i + 1;
    }
    assert(ks.subrange(0, i as int) =~= ks);
    proof {
        assert forall|j: int| 0 <= j < usable_keys(ks).len() implies header_safe(bearer(#[trigger] usable_keys(ks)[j])) by {
            assert(out@[j].wf());
        }
    }
    Ok(out)
}

pub open spec fn clamp_weight_spec(w: Option<usize>) -> usize {
    match w {
        None => 1,
        Some(x) => if x < 1 {
            1
        } else if x > MAX_WEIGHT {
            MAX_WEIGHT
        } else {
            x
        },
    }
}

/// The configured weight, 1 when absent, clamped to `1..=100`.
pub fn clamp_weight(w: Option<usize>) -> (r: usize)
    ensures
        r == clamp_weight_spec(w),
        1 <= r <= MAX_WEIGHT,
{
    match w {
        None => 1,
        Some(x) => if x < 1 {
            1
        } else if x > MAX_WEIGHT {
            MAX_WEIGHT
        } else {
            x
        },
    }
}

/// A path without its trailing `/` characters.
pub open spec fn strip_slashes(s: Seq<char>) -> Seq<char>
    decreases s.len(),
{
    if s.len() > 0 && s.last() == '/' {
        strip_slashes(s.drop_last())
    } else {
        s
    }
}

fn trim_trailing_slashes(s: &str) -> (r: String)
    ensures
        r@ == strip_slashes(s@),
{
    let mut i = s.unicode_len();
    assert(s@.subrange(0, i as int) =~= s@);
    while i > 0 && s.get_char(i - 1) == '/'
        invariant
            i <= s@.len(),
            strip_slashes(s@) == strip_slashes(s@.subrange(0, i as int)),
        decreases i,
    {
        assert(s@.subrange(0, i as int).drop_last() =~= s@.subrange(0, i - 1));
        i = i - 1;
    }
    s.substring_char(0, i).to_owned()
}

/// How an upstream stands right after it was built from its configuration.
pub open spec fn built_from(u: Upstream, c: UpstreamConfig, ks: Seq<Seq<char>>) -> bool {
    &&& u.id@ == c.id@
    &&& u.base_url@ == c.base_url@
    &&& u.weight == clamp_weight_spec(c.weight)
    &&& uri_parts(c.base_url@) matches Some((sc, au, p)) && sc == u.base_scheme@ && au
        == u.base_authority@ && u.base_path@ == strip_slashes(p)
    &&& u.keys@.len() == usable_keys(ks).len()
    &&& forall|j: int| 0 <= j < u.keys@.len() ==> {
        &&& (#[trigger] u.keys@[j]).key@ == usable_keys(ks)[j]
        &&& u.keys@[j].cooldown_until_ms == 0
        &&& u.keys@[j].fail_streak == 0
    }
    &&& u.key_rr == 0
    &&& set_items(u.models) == Set::<Seq<char>>::empty()
    &&& u.cooldown_until_ms == 0
    &&& u.fail_streak == 0
    &&& u.stats == UpstreamStats::zero()
}

/// What is wrong with the `i`-th configured upstream, if anything.
pub open spec fn upstream_problem(cs: Seq<UpstreamConfig>, kl: Seq<Vec<String>>, i: int) -> Option<RouterError> {
    if exists|j: int| 0 <= j < i && (#[trigger] cs[j]).id@ == cs[i].id@ {
        Some(RouterError::DuplicateUpstream)
    } else if uri_parts(cs[i].base_url@) is None {
        Some(RouterError::InvalidBaseUrl)
    } else if !keys_header_safe(strings_view(kl[i]@)) {
        Some(RouterError::InvalidKey)
    } else {
        None
    }
}

/// The problem of the first of the first `n` upstreams that has one.
pub open spec fn first_problem(cs: Seq<UpstreamConfig>, kl: Seq<Vec<String>>, n: int) -> Option<RouterError>
    decreases n,
{
    if n <= 0 {
        None
    } else {
        match first_problem(cs, kl, n - 1) {
            Some(e) => Some(e),
            None => upstream_problem(cs, kl, n - 1),
        }
    }
}

/// Why a snapshot cannot be built from these upstreams and credential lists.
pub open spec fn snapshot_error(cs: Seq<UpstreamConfig>, kl: Seq<Vec<String>>) -> Option<RouterError> {
    if cs.len() == 0 {
        Some(RouterError::NoUpstreams)
    } else {
        first_problem(cs, kl, cs.len() as int)
    }
}

/// Builds a snapshot from the upstream configurations, each with its stored
/// credential list: weights clamped, base URLs split, schedule expanded.
pub fn build_snapshot_from_configs(configs: &Vec<UpstreamConfig>, key_lists: &Vec<Vec<String>>) -> (r: Result<RouterSnapshot, RouterError>)
    requires
        configs@.len() == key_lists@.len(),
    ensures
        match r {
            Ok(s) => {
                &&& snapshot_error(configs@, key_lists@) is None
                &&& s.wf()
                &&& s.upstreams@.len() == configs@.len()
                &&& forall|i: int| 0 <= i < configs@.len() ==> built_from(
                    #[trigger] s.upstreams@[i],
                    configs@[i],
                    strings_view(key_lists@[i]@),
                )
            },
            Err(e) => snapshot_error(configs@, key_lists@) == Some(e),
        },
{
    if configs.len() == 0 {
        return Err(RouterError::NoUpstreams);
    }
    let mut upstreams: Vec<Upstream> = Vec::new();
    let mut schedule: Vec<usize> = Vec::new();
    let mut i: usize = 0;
    while i < configs.len()
        invariant
            configs@.len() == key_lists@.len(),
            i <= configs@.len(),
            upstreams@.len() == i,
            first_problem(configs@, key_lists@, i as int) is None,
            schedule@ == schedule_of(weights_of(upstreams@)),
            forall|j: int| 0 <= j < i ==> built_from(#[trigger] upstreams@[j], configs@[j], strings_view(key_lists@[j]@)),
            forall|j: int| 0 <= j < i ==> (#[trigger] upstreams@[j]).keys_wf(),
        decreases configs@.len() - i,
    {
        let c = &configs[i];
        let mut j: usize = 0;
        while j < i
            invariant
                i < configs@.len(),
                configs@.len() == key_lists@.len(),
                first_problem(configs@, key_lists@, i as int) is None,
                j <= i,
                upstreams@.len() == i,
                c == configs@[i as int],
                forall|m: int| 0 <= m < i ==> built_from(#[trigger] upstreams@[m], configs@[m], strings_view(key_lists@[m]@)),
                forall|m: int| 0 <= m < j ==> (#[trigger] configs@[m]).id@ != c.id@,
            decreases i - j,
        {
            if text_eq(upstreams[j].id.as_str(), c.id.as_str()) {
                proof {
                    assert(configs@[j as int].id@ == c.id@);
                    assert(upstream_problem(configs@, key_lists@, i as int) == Some(RouterError::DuplicateUpstream));
                    lemma_first_problem_sticks(configs@, key_lists@, i as int + 1, configs@.len() as int);
                }
                return Err(RouterError::DuplicateUpstream);
            }
            j = j + 1;
        }
        let weight = clamp_weight(c.weight);
        let parts = split_base_url(c.base_url.as_str());
        let (scheme, authority, path) = match parts {
            Some(p) => p,
            None => {
                proof {
                    lemma_first_problem_sticks(configs@, key_lists@, i as int + 1, configs@.len() as int);
                }
                return Err(RouterError::InvalidBaseUrl);
            },
        };
        let keys = match build_key_states(&key_lists[i]) {
            Ok(k) => k,
            Err(e) => {
                proof {
                    lemma_first_problem_sticks(configs@, key_lists@, i as int + 1, configs@.len() as int);
                }
                return Err(e);
            },
        };
        let base_path = trim_trailing_slashes(path.as_str());
        let u = Upstream {
            id: c.id.clone(),
            base_url: c.base_url.clone(),
            base_scheme: scheme,
            base_authority: authority,
            base_path,
            weight,
            keys,
            key_rr: 0,
            models: text_set_new(),
            cooldown_until_ms: 0,
            fail_streak: 0,
            stats: UpstreamStats::default(),
        };
        let ghost prev = upstreams@;
        upstreams.push(u);
        assert(weights_of(upstreams@).drop_last() =~= weights_of(prev));
        let mut w: usize = 0;
        while w < weight
            invariant
                w <= weight,
                upstreams@.len() == i + 1,
                weights_of(upstreams@).last() == weight,
                weights_of(upstreams@).drop_last() == weights_of(prev),
                schedule@ == schedule_of(weights_of(prev)) + Seq::new(w as nat, |m: int| i),
            decreases weight - w,
        {
            schedule.push(i);
            w = w + 1;
            assert(schedule@ =~= schedule_of(weights_of(prev)) + Seq::new(w as nat, |m: int| i));
        }
        assert(schedule@ =~= schedule_of(weights_of(upstreams@)));
        i = i + 1;
    }
    let s = RouterSnapshot { upstreams, schedule };
    proof {
        lemma_schedule_len(weights_of(s.upstreams@));
        assert forall|a: int, b: int|
            0 <= a < s.upstreams@.len() && 0 <= b < s.upstreams@.len() && a != b
            implies #[trigger] s.upstreams@[a].id@ != #[trigger] s.upstreams@[b].id@ by {
            let (lo, hi) = if a < b { (a, b) } else { (b, a) };
            lemma_first_problem_none(configs@, key_lists@, hi, configs@.len() as int);
        }
        assert forall|a: int| 0 <= a < s.upstreams@.len() implies 1 <= #[trigger] s.upstreams@[a].weight <= MAX_WEIGHT by {
            assert(built_from(s.upstreams@[a], configs@[a], strings_view(key_lists@[a]@)));
        }
    }
    Ok(s)
}

proof fn lemma_first_problem_sticks(cs: Seq<UpstreamConfig>, kl: Seq<Vec<String>>, n: int, m: int)
    requires
        0 < n <= m,
        first_problem(cs, kl, n - 1) is None,
        upstream_problem(cs, kl, n - 1) is Some,
    ensures
        first_problem(cs, kl, m) == upstream_problem(cs, kl, n - 1),
    decreases m - n,
{
    if m > n {
        lemma_first_problem_sticks(cs, kl, n, m - 1);
    }
}

proof fn lemma_first_problem_none(cs: Seq<UpstreamConfig>, kl: Seq<Vec<String>>, i: int, n: int)
    requires
        0 <= i < n,
        first_problem(cs, kl, n) is None,
    ensures
        upstream_problem(cs, kl, i) is None,
    decreases n - i,
{
    if i < n - 1 {
        lemma_first_problem_none(cs, kl, i, n - 1);
    }
}

} // verus!
