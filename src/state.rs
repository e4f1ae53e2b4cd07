use crate::config::{BanConfig, Config, UpstreamConfig};
use crate::router::{KeyState, RouterSnapshot, RouterState, Stats};
use crate::sets::{set_items, text_set_contains, text_set_insert, text_set_is_empty, text_set_new};
use crate::snapshot::{
    build_key_states, build_snapshot_from_configs, built_from, keys_header_safe, snapshot_error,
    strings_view, usable_keys, RouterError,
};
use crate::text::{text_eq, trim_text, trimmed};
use vstd::prelude::*;

verus! {

/// Relies on `std::time::SystemTime::now`: milliseconds since the Unix
/// epoch (zero if the clock is before it). Nothing is promised of the value.
#[verifier::external_body]
pub fn now_ms() -> (r: u64) {
    std::time::SystemTime::now().duration_since(std::time::UNIX_EPOCH).unwrap_or_default().as_millis() as u64
}

impl Stats {
    /// All counters zero, started now.
    pub fn new() -> (r: Stats)
        ensures
            r == (Stats { started_at_ms: r.started_at_ms, ..Stats::zero() }),
    {
        Stats { started_at_ms: now_ms(), ..Stats::zero_exec() }
    }

    pub open spec fn zero() -> Stats {
        Stats {
            started_at_ms: 0,
            requests_total: 0,
            requests_inflight: 0,
            upstream_selected_total: 0,
            responses_2xx: 0,
            responses_3xx: 0,
            responses_4xx: 0,
            responses_5xx: 0,
            errors_timeout: 0,
            errors_network: 0,
            latency_ns_total: 0,
            latency_count: 0,
            latency_ns_max: 0,
        }
    }

    fn zero_exec() -> (r: Stats)
        ensures
            r == Stats::zero(),
    {
        Stats {
            started_at_ms: 0,
            requests_total: 0,
            requests_inflight: 0,
            upstream_selected_total: 0,
            responses_2xx: 0,
            responses_3xx: 0,
            responses_4xx: 0,
            responses_5xx: 0,
            errors_timeout: 0,
            errors_network: 0,
            latency_ns_total: 0,
            latency_count: 0,
            latency_ns_max: 0,
        }
    }
}

/// The set of models a fetched model list names.
pub fn model_set(list: &Vec<String>) -> (r: ahash::AHashSet<String>)
    ensures
        set_items(r) == strings_view(list@).to_set(),
{
    let ghost vs = strings_view(list@);
    let mut set = text_set_new();
    let mut i: usize = 0;
    while i < list.len()
        invariant
            vs == strings_view(list@),
            i <= list@.len(),
            set_items(set) == vs.subrange(0, i as int).to_set(),
        decreases list@.len() - i,
    {
        assert(vs.subrange(0, i + 1) =~= vs.subrange(0, i as int).push(list@[i as int]@));
        proof {
            vs.subrange(0, i as int).lemma_push_to_set_commute(list@[i as int]@);
        }
        text_set_insert(&mut set, list[i].clone());
        i = i + 1;
    }
    assert(vs.subrange(0, i as int) =~= vs);
    set
}

/// A set holding the given entries, each trimmed, blank ones dropped.
fn token_set(v: &Vec<String>, trim: bool) -> (r: ahash::AHashSet<String>)
    ensures
        trim ==> set_items(r) == usable_keys(strings_view(v@)).to_set(),
        !trim ==> set_items(r) == strings_view(v@).filter(|t: Seq<char>| t.len() > 0).to_set(),
{
    let ghost vs = strings_view(v@);
    let mut set = text_set_new();
    let mut i: usize = 0;
    while i < v.len()
        invariant
            vs == strings_view(v@),
            i <= v@.len(),
            trim ==> set_items(set) == usable_keys(vs.subrange(0, i as int)).to_set(),
            !trim ==> set_items(set) == vs.subrange(0, i as int).filter(|t: Seq<char>| t.len() > 0).to_set(),
        decreases v@.len() - i,
    {
        let ghost pre = vs.subrange(0, i as int);
        assert(vs.subrange(0, i + 1).drop_last() =~= pre);
        assert(vs.subrange(0, i + 1) =~= pre.push(v@[i as int]@));
        proof {
            usable_keys(pre).lemma_push_to_set_commute(trimmed(v@[i as int]@));
            pre.lemma_filter_push(v@[i as int]@, |t: Seq<char>| t.len() > 0);
            pre.filter(|t: Seq<char>| t.len() > 0).lemma_push_to_set_commute(v@[i as int]@);
        }
        if trim {
            let t = trim_text(v[i].as_str());
            if t.as_str().unicode_len() != 0 {
                text_set_insert(&mut set, t);
            }
        } else if v[i].as_str().unicode_len() != 0 {
            text_set_insert(&mut set, v[i].clone());
        }
        i = i + 1;
    }
    assert(vs.subrange(0, i as int) =~= vs);
    set
}

fn optional_token_set(v: &Option<Vec<String>>) -> (r: Option<ahash::AHashSet<String>>)
    ensures
        match *v {
            Some(l) => if usable_keys(strings_view(l@)).to_set().is_empty() {
                r is None
            } else {
                r matches Some(s) && set_items(s) == usable_keys(strings_view(l@)).to_set()
            },
            None => r is None,
        },
{
    match v {
        Some(l) => {
            let set = token_set(l, true);
            if text_set_is_empty(&set) {
                None
            } else {
                Some(set)
            }
        },
        None => None,
    }
}

/// `a` is `b` but for the credential list of the upstream at `idx`.
pub open spec fn keys_swapped(a: &RouterState, b: &RouterState, idx: usize) -> bool {
    &&& idx < b.snapshot.upstreams@.len()
    &&& a.snapshot.schedule@ == b.snapshot.schedule@
    &&& a.snapshot.upstreams@.len() == b.snapshot.upstreams@.len()
    &&& forall|i: int| 0 <= i < a.snapshot.upstreams@.len() && i != idx ==> #[trigger] a.snapshot.upstreams@[i] == b.snapshot.upstreams@[i]
    &&& a.snapshot.upstreams@[idx as int].id == b.snapshot.upstreams@[idx as int].id
    &&& a.snapshot.upstreams@[idx as int].weight == b.snapshot.upstreams@[idx as int].weight
    &&& a.generation == b.generation
}

/// `list` names the upstreams of `ups` but the `k`-th, in the same order.
pub open spec fn listed_without(list: Seq<UpstreamConfig>, ups: Seq<crate::router::Upstream>, k: int) -> bool {
    forall|i: int| 0 <= i < list.len() ==> (#[trigger] list[i]).id@ == if i < k { ups[i].id@ } else { ups[i + 1].id@ }
}

impl RouterState {
    /// A router for the configuration, with `upstreams` (the configured list
    /// or its persisted override) and each upstream's stored credentials.
    pub fn new(cfg: &Config, upstreams: &Vec<UpstreamConfig>, key_lists: &Vec<Vec<String>>) -> (r: Result<RouterState, RouterError>)
        requires
            upstreams@.len() == key_lists@.len(),
        ensures
            match r {
                Ok(s) => {
                    &&& snapshot_error(upstreams@, key_lists@) is None
                    &&& s.wf()
                    &&& s.snapshot.upstreams@.len() == upstreams@.len()
                    &&& forall|i: int| 0 <= i < upstreams@.len() ==> built_from(
                        #[trigger] s.snapshot.upstreams@[i],
                        upstreams@[i],
                        strings_view(key_lists@[i]@),
                    )
                    &&& s.ban == cfg.ban
                    &&& s.request_timeout_ms == cfg.request_timeout_ms
                    &&& set_items(s.admin_tokens) == strings_view(cfg.admin_tokens@).filter(|t: Seq<char>| t.len() > 0).to_set()
                    &&& s.sched_rr == 0
                },
                Err(e) => snapshot_error(upstreams@, key_lists@) == Some(e),
            },
    {
        let snapshot = build_snapshot_from_configs(upstreams, key_lists)?;
        Ok(RouterState {
            request_timeout_ms: cfg.request_timeout_ms,
            ban: cfg.ban,
            proxy_tokens: optional_token_set(&cfg.proxy_tokens),
            admin_tokens: token_set(&cfg.admin_tokens, false),
            usage_inject_upstreams: optional_token_set(&cfg.usage_inject_upstreams),
            snapshot,
            generation: 0,
            sched_rr: 0,
            stats: Stats::new(),
        })
    }

    /// Whether any upstream has a non-empty model set.
    pub fn any_models_loaded(&self) -> (r: bool)
        ensures
            r == exists|i: int| 0 <= i < self.snapshot.upstreams@.len() && !set_items(#[trigger] self.snapshot.upstreams@[i].models).is_empty(),
    {
        let n = self.snapshot.upstreams.len();
        let mut i: usize = 0;
        while i < n
            invariant
                n == self.snapshot.upstreams@.len(),
                i <= n,
                forall|j: int| 0 <= j < i ==> set_items(#[trigger] self.snapshot.upstreams@[j].models).is_empty(),
            decreases n - i,
        {
            if !text_set_is_empty(&self.snapshot.upstreams[i].models) {
                return true;
            }
            proof {
                assert(set_items(self.snapshot.upstreams@[i as int].models) =~= Set::<Seq<char>>::empty());
            }
            i = i + 1;
        }
        false
    }

    /// A request enters the forwarding path.
    pub fn begin_request(&mut self)
        ensures
            final(self).stats == (Stats {
                requests_total: old(self).stats.requests_total.wrapping_add(1),
                requests_inflight: old(self).stats.requests_inflight.wrapping_add(1),
                ..old(self).stats
            }),
            final(self).snapshot == old(self).snapshot,
            final(self).generation == old(self).generation,
            final(self).sched_rr == old(self).sched_rr,
    {
        self.stats.requests_total = self.stats.requests_total.wrapping_add(1);
        self.stats.requests_inflight = self.stats.requests_inflight.wrapping_add(1);
    }

    /// A request that `begin_request` counted has been answered.
    pub fn end_request(&mut self)
        ensures
            final(self).stats == (Stats {
                requests_inflight: if old(self).stats.requests_inflight > 0 { (old(self).stats.requests_inflight - 1) as u64 } else { 0 },
                ..old(self).stats
            }),
            final(self).snapshot == old(self).snapshot,
            final(self).generation == old(self).generation,
            final(self).sched_rr == old(self).sched_rr,
    {
        if self.stats.requests_inflight > 0 {
            self.stats.requests_inflight = self.stats.requests_inflight - 1;
        }
    }

    /// Counts a finished request's latency: total and count accumulate
    /// (wrapping), the maximum keeps the largest seen.
    pub fn record_latency(&mut self, latency_ns: u64)
        ensures
            final(self).stats == (Stats {
                latency_ns_total: old(self).stats.latency_ns_total.wrapping_add(latency_ns),
                latency_count: old(self).stats.latency_count.wrapping_add(1),
                latency_ns_max: if latency_ns > old(self).stats.latency_ns_max {
                    latency_ns
                } else {
                    old(self).stats.latency_ns_max
                },
                ..old(self).stats
            }),
            final(self).snapshot == old(self).snapshot,
            final(self).generation == old(self).generation,
            final(self).sched_rr == old(self).sched_rr,
    {
        self.stats.latency_ns_total = self.stats.latency_ns_total.wrapping_add(latency_ns);
        self.stats.latency_count = self.stats.latency_count.wrapping_add(1);
        if latency_ns > self.stats.latency_ns_max {
            self.stats.latency_ns_max = latency_ns;
        }
    }

    /// Proxy traffic is allowed when no proxy tokens are configured, or when
    /// the `X-Proxy-Token` header holds one of them.
    pub fn authorize_proxy(&self, header: Option<&str>) -> (r: bool)
        ensures
            r == match self.proxy_tokens {
                None => true,
                Some(t) => header matches Some(h) && set_items(t).contains(h@),
            },
    {
        match &self.proxy_tokens {
            None => true,
            Some(t) => match header {
                Some(h) => text_set_contains(t, h),
                None => false,
            },
        }
    }

    /// The `X-Admin-Token` header holds one of the admin tokens.
    pub fn authorize_admin_header(&self, header: Option<&str>) -> (r: bool)
        ensures
            r == (header matches Some(h) && set_items(self.admin_tokens).contains(h@)),
    {
        match header {
            Some(h) => text_set_contains(&self.admin_tokens, h),
            None => false,
        }
    }

    pub fn authorize_admin_token_str(&self, token: &str) -> (r: bool)
        ensures
            r == set_items(self.admin_tokens).contains(token@),
    {
        text_set_contains(&self.admin_tokens, token)
    }

    /// Whether streaming requests routed to this upstream get the usage hint.
    pub fn should_inject_usage(&self, upstream_id: &str) -> (r: bool)
        ensures
            r == (self.usage_inject_upstreams matches Some(s) && set_items(s).contains(upstream_id@)),
    {
        match &self.usage_inject_upstreams {
            Some(s) => text_set_contains(s, upstream_id),
            None => false,
        }
    }

    /// The configuration of the live upstreams, with their effective weights.
    pub fn current_upstream_configs(&self) -> (r: Vec<UpstreamConfig>)
        ensures
            r@.len() == self.snapshot.upstreams@.len(),
            forall|i: int| 0 <= i < r@.len() ==> {
                &&& (#[trigger] r@[i]).id@ == self.snapshot.upstreams@[i].id@
                &&& r@[i].base_url@ == self.snapshot.upstreams@[i].base_url@
                &&& r@[i].weight == Some(self.snapshot.upstreams@[i].weight)
            },
    {
        let mut out: Vec<UpstreamConfig> = Vec::new();
        let mut i: usize = 0;
        while i < self.snapshot.upstreams.len()
            invariant
                i <= self.snapshot.upstreams@.len(),
                out@.len() == i,
                forall|j: int| 0 <= j < i ==> {
                    &&& (#[trigger] out@[j]).id@ == self.snapshot.upstreams@[j].id@
                    &&& out@[j].base_url@ == self.snapshot.upstreams@[j].base_url@
                    &&& out@[j].weight == Some(self.snapshot.upstreams@[j].weight)
                },
            decreases self.snapshot.upstreams@.len() - i,
        {
            let u = &self.snapshot.upstreams[i];
            out.push(UpstreamConfig { id: u.id.clone(), base_url: u.base_url.clone(), weight: Some(u.weight) });
            i = i + 1;
        }
        out
    }

    /// The upstream list with `cfg` appended; refused when its id is taken.
    pub fn add_upstream(&self, cfg: UpstreamConfig) -> (r: Result<Vec<UpstreamConfig>, RouterError>)
        ensures
            match r {
                Ok(list) => {
                    &&& forall|i: int| 0 <= i < self.snapshot.upstreams@.len() ==> (#[trigger] self.snapshot.upstreams@[i]).id@ != cfg.id@
                    &&& list@.len() == self.snapshot.upstreams@.len() + 1
                    &&& list@.last() == cfg
                    &&& forall|i: int| 0 <= i < self.snapshot.upstreams@.len() ==> (#[trigger] list@[i]).id@ == self.snapshot.upstreams@[i].id@
                },
                Err(e) => e == RouterError::UpstreamExists && exists|i: int|
                    0 <= i < self.snapshot.upstreams@.len() && (#[trigger] self.snapshot.upstreams@[i]).id@ == cfg.id@,
            },
    {
        if let Some(_) = self.upstream_by_id(cfg.id.as_str()) {
            return Err(RouterError::UpstreamExists);
        }
        let mut list = self.current_upstream_configs();
        list.push(cfg);
        Ok(list)
    }

    /// The upstream list with one entry's base URL and weight changed.
    pub fn update_upstream(&self, id: &str, base_url: String, weight: Option<usize>) -> (r: Result<Vec<UpstreamConfig>, RouterError>)
        ensures
            match r {
                Ok(list) => exists|k: int| {
                    &&& 0 <= k < self.snapshot.upstreams@.len()
                    &&& #[trigger] self.snapshot.upstreams@[k].id@ == id@
                    &&& list@.len() == self.snapshot.upstreams@.len()
                    &&& list@[k].id@ == id@
                    &&& list@[k].base_url == base_url
                    &&& list@[k].weight == weight
                    &&& forall|i: int| 0 <= i < list@.len() && i != k ==> (#[trigger] list@[i]).weight == Some(self.snapshot.upstreams@[i].weight)
                        && list@[i].id@ == self.snapshot.upstreams@[i].id@ && list@[i].base_url@ == self.snapshot.upstreams@[i].base_url@
                },
                Err(e) => e == RouterError::UnknownUpstream && forall|i: int|
                    0 <= i < self.snapshot.upstreams@.len() ==> (#[trigger] self.snapshot.upstreams@[i]).id@ != id@,
            },
    {
        let k = match self.upstream_by_id(id) {
            Some(k) => k,
            None => return Err(RouterError::UnknownUpstream),
        };
        let list = self.current_upstream_configs();
        let mut out: Vec<UpstreamConfig> = Vec::new();
        let mut i: usize = 0;
        while i < list.len()
            invariant
                list@.len() == self.snapshot.upstreams@.len(),
                k < list@.len(),
                self.snapshot.upstreams@[k as int].id@ == id@,
                forall|j: int| 0 <= j < list@.len() ==> {
                    &&& (#[trigger] list@[j]).id@ == self.snapshot.upstreams@[j].id@
                    &&& list@[j].base_url@ == self.snapshot.upstreams@[j].base_url@
                    &&& list@[j].weight == Some(self.snapshot.upstreams@[j].weight)
                },
                i <= list@.len(),
                out@.len() == i,
                k < i ==> out@[k as int].id@ == id@ && out@[k as int].base_url == base_url && out@[k as int].weight == weight,
                forall|j: int| 0 <= j < i && j != k ==> (#[trigger] out@[j]).weight == Some(self.snapshot.upstreams@[j].weight)
                    && out@[j].id@ == self.snapshot.upstreams@[j].id@ && out@[j].base_url@ == self.snapshot.upstreams@[j].base_url@,
            decreases list@.len() - i,
        {
            if i == k {
                out.push(UpstreamConfig { id: list[i].id.clone(), base_url: base_url.clone(), weight });
            } else {
                out.push(list[i].duplicate());
            }
            i = i + 1;
        }
        Ok(out)
    }

    /// The upstream list without the entry of the given id.
    pub fn delete_upstream(&self, id: &str) -> (r: Result<Vec<UpstreamConfig>, RouterError>)
        requires
            self.wf(),
        ensures
            match r {
                Ok(list) => {
                    &&& exists|k: int| 0 <= k < self.snapshot.upstreams@.len() && #[trigger] self.snapshot.upstreams@[k].id@ == id@
                    &&& list@.len() + 1 == self.snapshot.upstreams@.len()
                    &&& forall|i: int| 0 <= i < list@.len() ==> (#[trigger] list@[i]).id@ != id@
                    &&& exists|k: int| 0 <= k < self.snapshot.upstreams@.len() && #[trigger] listed_without(list@, self.snapshot.upstreams@, k)
                },
                Err(e) => e == RouterError::UnknownUpstream && forall|i: int|
                    0 <= i < self.snapshot.upstreams@.len() ==> (#[trigger] self.snapshot.upstreams@[i]).id@ != id@,
            },
    {
        let k = match self.upstream_by_id(id) {
            Some(k) => k,
            None => return Err(RouterError::UnknownUpstream),
        };
        let list = self.current_upstream_configs();
        let mut out: Vec<UpstreamConfig> = Vec::new();
        let mut i: usize = 0;
        while i < list.len()
            invariant
                self.wf(),
                list@.len() == self.snapshot.upstreams@.len(),
                k < list@.len(),
                self.snapshot.upstreams@[k as int].id@ == id@,
                forall|j: int| 0 <= j < list@.len() ==> (#[trigger] list@[j]).id@ == self.snapshot.upstreams@[j].id@,
                i <= list@.len(),
                out@.len() == if i <= k { i as int } else { i - 1 },
                forall|j: int| 0 <= j < out@.len() ==> (#[trigger] out@[j]).id@ != id@,
                forall|j: int| 0 <= j < out@.len() ==> (#[trigger] out@[j]).id@ == if j < k { self.snapshot.upstreams@[j].id@ } else { self.snapshot.upstreams@[j + 1].id@ },
            decreases list@.len() - i,
        {
            if i != k {
                assert(self.snapshot.upstreams@[i as int].id@ != self.snapshot.upstreams@[k as int].id@);
                out.push(list[i].duplicate());
            }
            i = i + 1;
        }
        assert(listed_without(out@, self.snapshot.upstreams@, k as int));
        Ok(out)
    }

    /// Swaps in a snapshot built from `configs` and their stored credentials;
    /// on refusal the router is left as it was.
    pub fn replace_upstreams(&mut self, configs: &Vec<UpstreamConfig>, key_lists: &Vec<Vec<String>>) -> (r: Result<(), RouterError>)
        requires
            old(self).wf(),
            configs@.len() == key_lists@.len(),
        ensures
            final(self).wf(),
            match r {
                Ok(()) => {
                    &&& snapshot_error(configs@, key_lists@) is None
                    &&& final(self).snapshot.upstreams@.len() == configs@.len()
                    &&& forall|i: int| 0 <= i < configs@.len() ==> built_from(
                        #[trigger] final(self).snapshot.upstreams@[i],
                        configs@[i],
                        strings_view(key_lists@[i]@),
                    )
                    &&& final(self).generation == old(self).generation.wrapping_add(1)
                },
                Err(e) => snapshot_error(configs@, key_lists@) == Some(e) && *final(self) == *old(self),
            },
    {
        let snapshot = build_snapshot_from_configs(configs, key_lists)?;
        self.snapshot = snapshot;
        self.generation = self.generation.wrapping_add(1);
        Ok(())
    }

    /// Replaces the credential list of the upstream at `idx` with fresh
    /// states for `keys`; returns how many there are now.
    pub fn set_upstream_keys(&mut self, idx: usize, keys: &Vec<String>) -> (r: Result<usize, RouterError>)
        requires
            old(self).wf(),
        ensures
            final(self).wf(),
            match r {
                Ok(n) => {
                    &&& idx < old(self).snapshot.upstreams@.len()
                    &&& keys_header_safe(strings_view(keys@))
                    &&& n == usable_keys(strings_view(keys@)).len()
                    &&& final(self).snapshot.upstreams@[idx as int].keys@.len() == n
                    &&& forall|j: int| 0 <= j < n ==> (#[trigger] final(self).snapshot.upstreams@[idx as int].keys@[j]).key@
                        == usable_keys(strings_view(keys@))[j]
                    &&& final(self).generation == old(self).generation.wrapping_add(1)
                },
                Err(e) => *final(self) == *old(self) && (
                    (idx >= old(self).snapshot.upstreams@.len() && e == RouterError::UnknownUpstream)
                    || (idx < old(self).snapshot.upstreams@.len() && e == RouterError::InvalidKey && !keys_header_safe(strings_view(keys@)))),
            },
    {
        if idx >= self.snapshot.upstreams.len() {
            return Err(RouterError::UnknownUpstream);
        }
        let states = build_key_states(keys)?;
        let n = states.len();
        self.put_keys(idx, states, true, Ghost(*self));
        Ok(n)
    }

    /// Appends fresh states for newly stored credentials to the list of the
    /// upstream at `idx`, keeping the breaker state of the others.
    pub fn append_upstream_keys(&mut self, idx: usize, keys: &Vec<String>) -> (r: Result<usize, RouterError>)
        requires
            old(self).wf(),
        ensures
            final(self).wf(),
            match r {
                Ok(n) => {
                    &&& idx < old(self).snapshot.upstreams@.len()
                    &&& keys_header_safe(strings_view(keys@))
                    &&& n == final(self).snapshot.upstreams@[idx as int].keys@.len()
                    &&& n == old(self).snapshot.upstreams@[idx as int].keys@.len() + usable_keys(strings_view(keys@)).len()
                    &&& final(self).snapshot.upstreams@[idx as int].keys@.subrange(0, old(self).snapshot.upstreams@[idx as int].keys@.len() as int)
                        == old(self).snapshot.upstreams@[idx as int].keys@
                    &&& final(self).generation == old(self).generation
                },
                Err(e) => *final(self) == *old(self) && (
                    (idx >= old(self).snapshot.upstreams@.len() && e == RouterError::UnknownUpstream)
                    || (idx < old(self).snapshot.upstreams@.len() && e == RouterError::InvalidKey && !keys_header_safe(strings_view(keys@)))),
            },
    {
        if idx >= self.snapshot.upstreams.len() {
            return Err(RouterError::UnknownUpstream);
        }
        let mut states = build_key_states(keys)?;
        let mut merged: Vec<KeyState> = Vec::new();
        let ghost orig = *self;
        std::mem::swap(&mut merged, &mut self.snapshot.upstreams[idx].keys);
        assert(orig.snapshot.upstreams@[idx as int].keys_wf());
        let ghost before = merged@;
        merged.append(&mut states);
        let n = merged.len();
        assert forall|j: int| 0 <= j < merged@.len() implies (#[trigger] merged@[j]).wf() by {
            if j < before.len() {
                assert(merged@[j] == before[j]);
            }
        }
        self.put_keys(idx, merged, false, Ghost(orig));
        assert(self.snapshot.upstreams@[idx as int].keys@.subrange(0, before.len() as int) =~= before);
        Ok(n)
    }

    /// Drops from the upstream at `idx` the credentials named in `removed`;
    /// returns how many remain.
    pub fn remove_upstream_keys(&mut self, idx: usize, removed: &Vec<String>) -> (r: Result<usize, RouterError>)
        requires
            old(self).wf(),
        ensures
            final(self).wf(),
            match r {
                Ok(n) => {
                    &&& idx < old(self).snapshot.upstreams@.len()
                    &&& n == final(self).snapshot.upstreams@[idx as int].keys@.len()
                    &&& forall|j: int| 0 <= j < n ==> !strings_view(removed@).contains(
                        (#[trigger] final(self).snapshot.upstreams@[idx as int].keys@[j]).key@)
                    &&& forall|j: int| 0 <= j < n ==> old(self).snapshot.upstreams@[idx as int].keys@.contains(
                        #[trigger] final(self).snapshot.upstreams@[idx as int].keys@[j])
                    &&& forall|j: int| 0 <= j < old(self).snapshot.upstreams@[idx as int].keys@.len()
                        && !strings_view(removed@).contains((#[trigger] old(self).snapshot.upstreams@[idx as int].keys@[j]).key@)
                        ==> final(self).snapshot.upstreams@[idx as int].keys@.contains(old(self).snapshot.upstreams@[idx as int].keys@[j])
                },
                Err(e) => *final(self) == *old(self) && idx >= old(self).snapshot.upstreams@.len() && e == RouterError::UnknownUpstream,
            },
    {
        if idx >= self.snapshot.upstreams.len() {
            return Err(RouterError::UnknownUpstream);
        }
        let mut old_keys: Vec<KeyState> = Vec::new();
        let ghost orig = *self;
        std::mem::swap(&mut old_keys, &mut self.snapshot.upstreams[idx].keys);
        assert(orig.snapshot.upstreams@[idx as int].keys_wf());
        let ghost ok = old_keys@;
        assert(ok.len() == old_keys.len());
        let mut kept: Vec<KeyState> = Vec::new();
        let mut j: usize = 0;
        while old_keys.len() > 0
            invariant
                ok.len() == j + old_keys@.len(),
                ok.len() <= usize::MAX,
                ok == orig.snapshot.upstreams@[idx as int].keys@,
                keys_swapped(self, &orig, idx),
                idx < orig.snapshot.upstreams@.len(),
                orig.wf(),
                old_keys@ == ok.subrange(j as int, ok.len() as int),
                forall|m: int| 0 <= m < kept@.len() ==> !strings_view(removed@).contains((#[trigger] kept@[m]).key@),
                forall|m: int| 0 <= m < kept@.len() ==> ok.contains(#[trigger] kept@[m]),
                forall|m: int| 0 <= m < j && !strings_view(removed@).contains((#[trigger] ok[m]).key@) ==> kept@.contains(ok[m]),
            decreases old_keys@.len(),
        {
            let k = old_keys.remove(0);
            assert(k == ok[j as int]);
            let mut hit = false;
            let mut m: usize = 0;
            while m < removed.len()
                invariant
                    m <= removed@.len(),
                    hit == exists|q: int| 0 <= q < m && (#[trigger] removed@[q])@ == k.key@,
                decreases removed@.len() - m,
            {
                if text_eq(removed[m].as_str(), k.key.as_str()) {
                    hit = true;
                }
                m = m + 1;
            }
            proof {
                if hit {
                    let q = choose|q: int| 0 <= q < m && (#[trigger] removed@[q])@ == k.key@;
                    assert(strings_view(removed@)[q] == k.key@);
                } else {
                    assert forall|q: int| 0 <= q < strings_view(removed@).len() implies strings_view(removed@)[q] != k.key@ by {
                        assert(strings_view(removed@)[q] == removed@[q]@);
                    }
                }
            }
            if !hit {
                let ghost kb = kept@;
                kept.push(k);
                proof {
                    assert forall|m2: int| 0 <= m2 < j && !strings_view(removed@).contains((#[trigger] ok[m2]).key@) implies kept@.contains(ok[m2]) by {
                        assert(kb.contains(ok[m2]));
                        let w = choose|w: int| 0 <= w < kb.len() && kb[w] == ok[m2];
                        assert(kept@[w] == ok[m2]);
                    }
                    assert(kept@[kept@.len() - 1] == ok[j as int]);
                }
            }
            j = j + 1;
        }
        let n = kept.len();
        assert forall|m: int| 0 <= m < kept@.len() implies (#[trigger] kept@[m]).wf() by {
            assert(ok.contains(kept@[m]));
            let w = choose|w: int| 0 <= w < ok.len() && ok[w] == kept@[m];
            assert(orig.snapshot.upstreams@[idx as int].keys_wf());
        }
        self.put_keys(idx, kept, true, Ghost(orig));
        Ok(n)
    }

    /// Installs a credential list that came from `build_key_states` or from
    /// the upstream's own list.
    fn put_keys(&mut self, idx: usize, keys: Vec<KeyState>, bump: bool, Ghost(orig): Ghost<RouterState>)
        requires
            orig.wf(),
            keys_swapped(old(self), &orig, idx),
            forall|j: int| 0 <= j < keys@.len() ==> (#[trigger] keys@[j]).wf(),
        ensures
            final(self).wf(),
            final(self).snapshot.upstreams@[idx as int].keys@ == keys@,
            final(self).generation == if bump { old(self).generation.wrapping_add(1) } else { old(self).generation },
    {
        self.snapshot.upstreams[idx].keys = keys;
        if bump {
            self.snapshot.upstreams[idx].key_rr = 0;
            self.generation = self.generation.wrapping_add(1);
        }
        proof {
            assert(crate::router::weights_of(self.snapshot.upstreams@) =~= crate::router::weights_of(orig.snapshot.upstreams@));
            assert forall|i: int| 0 <= i < self.snapshot.upstreams@.len() implies (#[trigger] self.snapshot.upstreams@[i]).keys_wf() by {
                if i != idx {
                    assert(self.snapshot.upstreams@[i] == orig.snapshot.upstreams@[i]);
                    assert(orig.snapshot.upstreams@[i].keys_wf());
                }
            }
            assert forall|i: int, j: int| 0 <= i < self.snapshot.upstreams@.len() && 0 <= j < self.snapshot.upstreams@.len() && i != j
                implies #[trigger] self.snapshot.upstreams@[i].id@ != #[trigger] self.snapshot.upstreams@[j].id@ by {
                assert(orig.snapshot.upstreams@[i].id@ != orig.snapshot.upstreams@[j].id@);
            }
            assert forall|i: int| 0 <= i < self.snapshot.upstreams@.len() implies 1 <= #[trigger] self.snapshot.upstreams@[i].weight <= crate::router::MAX_WEIGHT by {
                assert(orig.snapshot.upstreams@[i].weight == self.snapshot.upstreams@[i].weight);
            }
        }
    }

    /// Sets the model set of the upstream at `idx`.
    pub fn set_upstream_models(&mut self, idx: usize, models: ahash::AHashSet<String>)
        requires
            old(self).wf(),
            idx < old(self).snapshot.upstreams@.len(),
        ensures
            final(self).wf(),
            set_items(final(self).snapshot.upstreams@[idx as int].models) == set_items(models),
            final(self).snapshot.schedule@ == old(self).snapshot.schedule@,
            final(self).snapshot.upstreams@.len() == old(self).snapshot.upstreams@.len(),
            forall|i: int| 0 <= i < old(self).snapshot.upstreams@.len() && i != idx ==> #[trigger] final(self).snapshot.upstreams@[i] == old(self).snapshot.upstreams@[i],
            final(self).snapshot.upstreams@[idx as int].id == old(self).snapshot.upstreams@[idx as int].id,
            final(self).generation == old(self).generation,
    {
        self.snapshot.upstreams[idx].models = models;
        proof {
            assert(crate::router::weights_of(self.snapshot.upstreams@) =~= crate::router::weights_of(old(self).snapshot.upstreams@));
            assert forall|i: int| 0 <= i < self.snapshot.upstreams@.len() implies (#[trigger] self.snapshot.upstreams@[i]).keys_wf() by {
                if i != idx {
                    assert(self.snapshot.upstreams@[i] == old(self).snapshot.upstreams@[i]);
                } else {
                    assert(old(self).snapshot.upstreams@[i].keys_wf());
                }
            }
            assert forall|i: int, j: int| 0 <= i < self.snapshot.upstreams@.len() && 0 <= j < self.snapshot.upstreams@.len() && i != j
                implies #[trigger] self.snapshot.upstreams@[i].id@ != #[trigger] self.snapshot.upstreams@[j].id@ by {
                assert(old(self).snapshot.upstreams@[i].id@ != old(self).snapshot.upstreams@[j].id@);
            }
        }
    }
}

} // verus!
