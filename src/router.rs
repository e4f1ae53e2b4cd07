use crate::config::BanConfig;
use crate::sets::{set_items, text_set_contains};
use crate::text::text_eq;
use vstd::prelude::*;

verus! {

/// Largest weight an upstream can have in the schedule.
pub const MAX_WEIGHT: usize = 100;

/// One upstream credential and its breaker state.
pub struct KeyState {
    pub key: String,
    /// `Bearer <key>`, ready to be sent as the `Authorization` header.
    pub auth_header: String,
    pub cooldown_until_ms: u64,
    pub fail_streak: u32,
}

/// Per-upstream counters.
#[derive(Clone, Copy, Debug, PartialEq, Eq)]
pub struct UpstreamStats {
    pub selected_total: u64,
    pub responses_2xx: u64,
    pub responses_3xx: u64,
    pub responses_4xx: u64,
    pub responses_5xx: u64,
    pub errors_timeout: u64,
    pub errors_network: u64,
}

impl Default for UpstreamStats {
    fn default() -> (r: UpstreamStats)
        ensures
            r == UpstreamStats::zero(),
    {
        UpstreamStats {
            selected_total: 0,
            responses_2xx: 0,
            responses_3xx: 0,
            responses_4xx: 0,
            responses_5xx: 0,
            errors_timeout: 0,
            errors_network: 0,
        }
    }
}

impl UpstreamStats {
    pub open spec fn zero() -> UpstreamStats {
        UpstreamStats {
            selected_total: 0,
            responses_2xx: 0,
            responses_3xx: 0,
            responses_4xx: 0,
            responses_5xx: 0,
            errors_timeout: 0,
            errors_network: 0,
        }
    }
}

/// One backend endpoint with its credentials, model set and breaker state.
pub struct Upstream {
    pub id: String,
    pub base_url: String,
    pub base_scheme: String,
    pub base_authority: String,
    /// Path prefix of the base URL without trailing `/`; empty when none.
    pub base_path: String,
    pub weight: usize,
    pub keys: Vec<KeyState>,
    pub key_rr: usize,
    pub models: ahash::AHashSet<String>,
    pub cooldown_until_ms: u64,
    pub fail_streak: u32,
    pub stats: UpstreamStats,
}

/// The upstream list with its weighted round-robin schedule.
pub struct RouterSnapshot {
    pub upstreams: Vec<Upstream>,
    /// Indices into `upstreams`; index `i` appears `weight` times.
    pub schedule: Vec<usize>,
}

/// An upstream and one of its credentials, by position in the snapshot of
/// the given generation.
#[derive(Clone, Copy, Debug, PartialEq, Eq)]
pub struct Selected {
    pub upstream: usize,
    pub key: usize,
    pub generation: u64,
}

/// The schedule for the given weights: `i` repeated `ws[i]` times, in order.
pub open spec fn schedule_of(ws: Seq<usize>) -> Seq<usize>
    decreases ws.len(),
{
    if ws.len() == 0 {
        Seq::empty()
    } else {
        schedule_of(ws.drop_last()) + Seq::new(ws.last() as nat, |j: int| (ws.len() - 1) as usize)
    }
}

pub open spec fn weight_sum(ws: Seq<usize>) -> nat
    decreases ws.len(),
{
    if ws.len() == 0 {
        0
    } else {
        weight_sum(ws.drop_last()) + ws.last() as nat
    }
}

pub open spec fn weights_of(ups: Seq<Upstream>) -> Seq<usize> {
    ups.map_values(|u: Upstream| u.weight)
}

/// The schedule is as long as the weights add up to, and names only valid
/// upstream positions.
pub proof fn lemma_schedule_len(ws: Seq<usize>)
    ensures
        schedule_of(ws).len() == weight_sum(ws),
        forall|j: int| 0 <= j < schedule_of(ws).len() ==> schedule_of(ws)[j] < ws.len(),
    decreases ws.len(),
{
    if ws.len() > 0 {
        lemma_schedule_len(ws.drop_last());
        let a = schedule_of(ws.drop_last());
        let b = Seq::new(ws.last() as nat, |j: int| (ws.len() - 1) as usize);
        assert forall|j: int| 0 <= j < schedule_of(ws).len() implies schedule_of(ws)[j] < ws.len() by {
            if j < a.len() {
                assert(schedule_of(ws)[j] == a[j]);
            } else {
                assert(schedule_of(ws)[j] == b[j - a.len()]);
            }
        }
    }
}

pub open spec fn header_char_ok(c: char) -> bool {
    c == '\t' || (32 <= c as u32 && c as u32 != 127)
}

/// What `http::HeaderValue::from_str` accepts: every byte is a tab or at
/// least 32 and not 127 (so any non-ASCII character passes).
pub open spec fn header_safe(s: Seq<char>) -> bool {
    forall|i: int| 0 <= i < s.len() ==> header_char_ok(#[trigger] s[i])
}

impl KeyState {
    pub open spec fn wf(&self) -> bool {
        &&& self.auth_header@ == "Bearer "@ + self.key@
        &&& header_safe(self.auth_header@)
    }

    pub open spec fn eligible(&self, now: u64) -> bool {
        self.cooldown_until_ms <= now
    }
}

impl Upstream {
    pub open spec fn keys_wf(&self) -> bool {
        forall|i: int| 0 <= i < self.keys@.len() ==> (#[trigger] self.keys@[i]).wf()
    }

    pub open spec fn has_eligible_key(&self, now: u64) -> bool {
        exists|i: int| 0 <= i < self.keys@.len() && (#[trigger] self.keys@[i]).eligible(now)
    }

    pub open spec fn serves(&self, model: Option<Seq<char>>) -> bool {
        match model {
            Some(m) => set_items(self.models).contains(m),
            None => true,
        }
    }

    /// Selectable for `model` at `now`: it serves the model, its own cooldown
    /// has elapsed and one of its credentials is off cooldown.
    pub open spec fn eligible(&self, model: Option<Seq<char>>, now: u64) -> bool {
        &&& self.serves(model)
        &&& self.cooldown_until_ms <= now
        &&& self.has_eligible_key(now)
    }

    /// Everything but the round-robin cursor and the counters.
    pub open spec fn same_routing(&self, other: &Upstream) -> bool {
        &&& self.id == other.id
        &&& self.base_url == other.base_url
        &&& self.base_scheme == other.base_scheme
        &&& self.base_authority == other.base_authority
        &&& self.base_path == other.base_path
        &&& self.weight == other.weight
        &&& self.keys@ == other.keys@
        &&& self.models == other.models
        &&& self.cooldown_until_ms == other.cooldown_until_ms
        &&& self.fail_streak == other.fail_streak
    }

    /// Picks the first credential off cooldown, scanning round-robin from the
    /// upstream's cursor; the cursor advances by one whenever there are keys.
    pub fn select_key(&mut self, now_ms: u64) -> (r: Option<usize>)
        ensures
            final(self).same_routing(old(self)),
            final(self).stats == old(self).stats,
            old(self).keys@.len() > 0 ==> final(self).key_rr == old(self).key_rr.wrapping_add(1),
            old(self).keys@.len() == 0 ==> final(self).key_rr == old(self).key_rr,
            match r {
                Some(i) => i < old(self).keys@.len() && old(self).keys@[i as int].eligible(now_ms),
                None => !old(self).has_eligible_key(now_ms),
            },
    {
        let n = self.keys.len();
        if n == 0 {
            return None;
        }
        let start = self.key_rr % n;
        self.key_rr = self.key_rr.wrapping_add(1);
        let mut i: usize = 0;
        while i < n
            invariant
                n == self.keys@.len(),
                start < n,
                i <= n,
                self.keys@ == old(self).keys@,
                self.same_routing(old(self)),
                self.stats == old(self).stats,
                self.key_rr == old(self).key_rr.wrapping_add(1),
                forall|j: int| 0 <= j < i ==> !self.keys@[slot_at(start as int, j, n as int)].eligible(now_ms),
            decreases n - i,
        {
            let idx = if i < n - start { start + i } else { i - (n - start) };
            if self.keys[idx].cooldown_until_ms <= now_ms {
                return Some(idx);
            }
            i = i + 1;
        }
        proof {
            assert forall|k: int| 0 <= k < n implies !(#[trigger] self.keys@[k]).eligible(now_ms) by {
                let j = if k >= start { k - start } else { k + n - start };
                assert(slot_at(start as int, j, n as int) == k);
            }
        }
        None
    }
}

proof fn lemma_advance_zero(a: usize)
    ensures
        advanced(a, 0) == a,
{
    let m = usize::MAX as int + 1;
    assert((a as int + 0) % m == a as int) by (nonlinear_arith) requires 0 <= a < m;
}

proof fn lemma_advance_step(a: usize, t: nat)
    ensures
        ({
            let b = advanced(a, t);
            &&& 0 <= b <= usize::MAX
            &&& (if b + 1 > usize::MAX { 0 } else { b + 1 }) == advanced(a, t + 1)
        }),
{
    let m = usize::MAX as int + 1;
    assert(0 <= (a as int + t) % m < m) by (nonlinear_arith) requires m > 0;
    assert(((a as int + t) % m + 1) % m == (a as int + t + 1) % m) by (nonlinear_arith) requires m > 0;
    assert(((a as int + t) % m + 1) < m ==> ((a as int + t) % m + 1) % m == (a as int + t) % m + 1) by (nonlinear_arith) requires m > 0, 0 <= (a as int + t) % m;
    assert(((a as int + t) % m + 1) == m ==> ((a as int + t) % m + 1) % m == 0) by (nonlinear_arith) requires m > 0;
}

/// The `j`-th slot visited when scanning `len` slots round-robin from `start`.
pub open spec fn slot_at(start: int, j: int, len: int) -> int {
    if j < len - start {
        start + j
    } else {
        j - (len - start)
    }
}

impl RouterSnapshot {
    pub open spec fn wf(&self) -> bool {
        &&& self.schedule@ == schedule_of(weights_of(self.upstreams@))
        &&& forall|i: int|
            0 <= i < self.upstreams@.len() ==> 1 <= #[trigger] self.upstreams@[i].weight
                <= MAX_WEIGHT
        &&& forall|i: int, j: int|
            0 <= i < self.upstreams@.len() && 0 <= j < self.upstreams@.len() && i != j
                ==> #[trigger] self.upstreams@[i].id@ != #[trigger] self.upstreams@[j].id@
        &&& forall|i: int| 0 <= i < self.upstreams@.len() ==> (#[trigger] self.upstreams@[i]).keys_wf()
        &&& forall|j: int|
            0 <= j < self.schedule@.len() ==> #[trigger] self.schedule@[j] < self.upstreams@.len()
    }

    pub open spec fn same_routing(&self, other: &RouterSnapshot) -> bool {
        &&& self.schedule@ == other.schedule@
        &&& self.upstreams@.len() == other.upstreams@.len()
        &&& forall|i: int|
            0 <= i < self.upstreams@.len() ==> (#[trigger] self.upstreams@[i]).same_routing(
                &other.upstreams@[i],
            )
    }

    /// Eligibility reads only what `same_routing` keeps.
    pub proof fn lemma_same_routing_eligible(&self, other: &RouterSnapshot, model: Option<Seq<char>>, now: u64)
        requires
            self.same_routing(other),
            other.wf(),
        ensures
            self.any_eligible(model, now) == other.any_eligible(model, now),
    {
        if self.any_eligible(model, now) {
            let j = choose|j: int| 0 <= j < self.schedule@.len() && self.upstreams@[#[trigger] self.schedule@[j] as int].eligible(model, now);
            let u = self.schedule@[j] as int;
            if 0 <= u < self.upstreams@.len() {
                assert(self.upstreams@[u].same_routing(&other.upstreams@[u]));
                let k = choose|k: int| 0 <= k < self.upstreams@[u].keys@.len() && (#[trigger] self.upstreams@[u].keys@[k]).eligible(now);
                assert(other.upstreams@[u].keys@[k].eligible(now));
                assert(other.upstreams@[other.schedule@[j] as int].eligible(model, now));
            }
        }
        if other.any_eligible(model, now) {
            let j = choose|j: int| 0 <= j < other.schedule@.len() && other.upstreams@[#[trigger] other.schedule@[j] as int].eligible(model, now);
            let u = other.schedule@[j] as int;
            if 0 <= u < self.upstreams@.len() {
                assert(self.upstreams@[u].same_routing(&other.upstreams@[u]));
                let k = choose|k: int| 0 <= k < other.upstreams@[u].keys@.len() && (#[trigger] other.upstreams@[u].keys@[k]).eligible(now);
                assert(self.upstreams@[u].keys@[k].eligible(now));
                assert(self.upstreams@[self.schedule@[j] as int].eligible(model, now));
            }
        }
    }

    pub proof fn lemma_same_routing_wf(&self, other: &RouterSnapshot)
        requires
            other.wf(),
            self.same_routing(other),
        ensures
            self.wf(),
    {
        assert(weights_of(self.upstreams@) =~= weights_of(other.upstreams@));
        assert forall|i: int| 0 <= i < self.upstreams@.len() implies (#[trigger] self.upstreams@[i]).keys_wf() by {
            assert(self.upstreams@[i].same_routing(&other.upstreams@[i]));
            assert(other.upstreams@[i].keys_wf());
        }
        assert forall|i: int, j: int|
            0 <= i < self.upstreams@.len() && 0 <= j < self.upstreams@.len() && i != j
            implies #[trigger] self.upstreams@[i].id@ != #[trigger] self.upstreams@[j].id@ by {
            assert(self.upstreams@[i].same_routing(&other.upstreams@[i]));
            assert(self.upstreams@[j].same_routing(&other.upstreams@[j]));
        }
        assert forall|i: int| 0 <= i < self.upstreams@.len() implies 1 <= #[trigger] self.upstreams@[i].weight <= MAX_WEIGHT by {
            assert(self.upstreams@[i].same_routing(&other.upstreams@[i]));
        }
    }

    /// In every well-formed snapshot the schedule is as long as the weights
    /// add up to.
    pub proof fn lemma_schedule_matches_weights(&self)
        requires
            self.wf(),
        ensures
            self.schedule@.len() == weight_sum(weights_of(self.upstreams@)),
            forall|i: int| 0 <= i < self.upstreams@.len() ==> 1 <= #[trigger] weights_of(self.upstreams@)[i] <= MAX_WEIGHT,
    {
        lemma_schedule_len(weights_of(self.upstreams@));
    }

    /// Some upstream on the schedule is selectable for `model` at `now`.
    pub open spec fn any_eligible(&self, model: Option<Seq<char>>, now: u64) -> bool {
        exists|j: int|
            0 <= j < self.schedule@.len() && self.upstreams@[#[trigger] self.schedule@[j] as int].eligible(
                model,
                now,
            )
    }
}

/// A cursor moved `k` slots forward, wrapping at `usize::MAX`.
pub open spec fn advanced(a: usize, k: nat) -> int {
    (a as int + k) % (usize::MAX as int + 1)
}

/// Counters after a selection result: the selected upstream's count and the
/// global count rise by one (wrapping); nothing changes on `None`.
pub open spec fn counted_selection(before: Stats, r: Option<Selected>) -> Stats {
    match r {
        Some(_) => Stats { upstream_selected_total: before.upstream_selected_total.wrapping_add(1), ..before },
        None => before,
    }
}

/// Global counters.
#[derive(Clone, Copy, Debug, PartialEq, Eq)]
pub struct Stats {
    pub started_at_ms: u64,
    pub requests_total: u64,
    pub requests_inflight: u64,
    pub upstream_selected_total: u64,
    pub responses_2xx: u64,
    pub responses_3xx: u64,
    pub responses_4xx: u64,
    pub responses_5xx: u64,
    pub errors_timeout: u64,
    pub errors_network: u64,
    pub latency_ns_total: u64,
    pub latency_count: u64,
    pub latency_ns_max: u64,
}

/// The router: configuration sets, the current snapshot and the schedule
/// cursor.
pub struct RouterState {
    pub request_timeout_ms: u64,
    pub ban: BanConfig,
    pub proxy_tokens: Option<ahash::AHashSet<String>>,
    pub admin_tokens: ahash::AHashSet<String>,
    pub usage_inject_upstreams: Option<ahash::AHashSet<String>>,
    pub snapshot: RouterSnapshot,
    /// Bumped whenever the snapshot or a credential list is replaced, so that
    /// an outcome reported for an older selection is dropped.
    pub generation: u64,
    pub sched_rr: usize,
    pub stats: Stats,
}

impl RouterState {
    pub open spec fn wf(&self) -> bool {
        self.snapshot.wf()
    }

    /// What a selection for `model` at `now` may return: a position in the
    /// current snapshot whose upstream and credential are both off cooldown
    /// and whose upstream serves the model; `None` only when no upstream on
    /// the schedule is selectable.
    pub open spec fn selection_ok(
        &self,
        r: Option<Selected>,
        model: Option<Seq<char>>,
        now: u64,
    ) -> bool {
        match r {
            Some(sel) => {
                &&& sel.generation == self.generation
                &&& sel.upstream < self.snapshot.upstreams@.len()
                &&& exists|j: int| 0 <= j < self.snapshot.schedule@.len() && #[trigger] self.snapshot.schedule@[j] == sel.upstream
                &&& sel.key < self.snapshot.upstreams@[sel.upstream as int].keys@.len()
                &&& self.snapshot.upstreams@[sel.upstream as int].eligible(model, now)
                &&& self.snapshot.upstreams@[sel.upstream as int].keys@[sel.key as int].eligible(now)
            },
            None => !self.snapshot.any_eligible(model, now),
        }
    }

    fn select_inner(&mut self, model: Option<&str>, now_ms: u64) -> (r: Option<Selected>)
        requires
            old(self).wf(),
        ensures
            final(self).wf(),
            final(self).snapshot.same_routing(&old(self).snapshot),
            final(self).generation == old(self).generation,
            final(self).ban == old(self).ban,
            final(self).stats == counted_selection(old(self).stats, r),
            final(self).usage_inject_upstreams == old(self).usage_inject_upstreams,
            final(self).proxy_tokens == old(self).proxy_tokens,
            final(self).admin_tokens == old(self).admin_tokens,
            forall|i: int| 0 <= i < final(self).snapshot.upstreams@.len() ==> (#[trigger] final(self).snapshot.upstreams@[i]).stats == if r matches Some(s) && s.upstream == i {
                UpstreamStats { selected_total: old(self).snapshot.upstreams@[i].stats.selected_total.wrapping_add(1), ..old(self).snapshot.upstreams@[i].stats }
            } else {
                old(self).snapshot.upstreams@[i].stats
            },
            exists|k: nat| k <= old(self).snapshot.schedule@.len() && final(self).sched_rr == advanced(old(self).sched_rr, k),
            old(self).selection_ok(
                r,
                match model {
                    Some(m) => Some(m@),
                    None => None,
                },
                now_ms,
            ),
    {
        let ghost gm = match model {
            Some(m) => Some(m@),
            None => None::<Seq<char>>,
        };
        let len = self.snapshot.schedule.len();
        if len == 0 {
            proof {
                lemma_advance_zero(old(self).sched_rr);
            }
            return None;
        }
        let start = self.sched_rr % len;
        let mut t: usize = 0;
        proof {
            lemma_advance_zero(old(self).sched_rr);
        }
        while t < len
            invariant
                len == self.snapshot.schedule@.len(),
                start < len,
                t <= len,
                gm == match model {
                    Some(m) => Some(m@),
                    None => None::<Seq<char>>,
                },
                old(self).wf(),
                self.snapshot.same_routing(&old(self).snapshot),
                self.generation == old(self).generation,
                self.ban == old(self).ban,
                self.stats == old(self).stats,
                self.usage_inject_upstreams == old(self).usage_inject_upstreams,
                self.proxy_tokens == old(self).proxy_tokens,
                self.admin_tokens == old(self).admin_tokens,
                forall|i: int| 0 <= i < self.snapshot.upstreams@.len() ==> (#[trigger] self.snapshot.upstreams@[i]).stats == old(self).snapshot.upstreams@[i].stats,
                self.sched_rr == advanced(old(self).sched_rr, t as nat),
                forall|j: int|
                    0 <= j < t ==> !old(self).snapshot.upstreams@[old(self).snapshot.schedule@[slot_at(
                        start as int,
                        j,
                        len as int,
                    )] as int].eligible(gm, now_ms),
            decreases len - t,
        {
            proof {
                self.snapshot.lemma_same_routing_wf(&old(self).snapshot);
            }
            proof {
                lemma_advance_step(old(self).sched_rr, t as nat);
            }
            self.sched_rr = self.sched_rr.wrapping_add(1);
            let slot = if t < len - start { start + t } else { t - (len - start) };
            let u_idx = self.snapshot.schedule[slot];
            assert(slot == slot_at(start as int, t as int, len as int));
            assert(self.snapshot.schedule@[slot as int] == old(self).snapshot.schedule@[slot as int]);
            let ghost ou = old(self).snapshot.upstreams@[u_idx as int];
            assert(self.snapshot.upstreams@[u_idx as int].same_routing(&ou));
            let serves = match model {
                Some(m) => text_set_contains(&self.snapshot.upstreams[u_idx].models, m),
                None => true,
            };
            assert(serves == ou.serves(gm));
            if serves && self.snapshot.upstreams[u_idx].cooldown_until_ms <= now_ms {
                let picked = self.snapshot.upstreams[u_idx].select_key(now_ms);
                match picked {
                    Some(k) => {
                        self.stats.upstream_selected_total = self.stats.upstream_selected_total.wrapping_add(1);
                        self.snapshot.upstreams[u_idx].stats.selected_total =
                            self.snapshot.upstreams[u_idx].stats.selected_total.wrapping_add(1);
                        assert(self.snapshot.same_routing(&old(self).snapshot));
                        proof {
                            assert forall|i: int| 0 <= i < self.snapshot.upstreams@.len() && i != u_idx implies (#[trigger] self.snapshot.upstreams@[i]).stats == old(self).snapshot.upstreams@[i].stats by {}
                            self.snapshot.lemma_same_routing_wf(&old(self).snapshot);
                            assert(ou.keys@[k as int].eligible(now_ms));
                            assert(old(self).snapshot.schedule@[slot as int] == u_idx);
                        }
                        return Some(Selected { upstream: u_idx, key: k, generation: self.generation });
                    },
                    None => {
                        assert(!ou.has_eligible_key(now_ms));
                    },
                }
            } else {
                assert(!ou.eligible(gm, now_ms));
            }
            assert(!ou.eligible(gm, now_ms));
            assert(self.snapshot.same_routing(&old(self).snapshot));
            t = t + 1;
        }
        proof {
            self.snapshot.lemma_same_routing_wf(&old(self).snapshot);
            let os = old(self).snapshot;
            if os.any_eligible(gm, now_ms) {
                let s = choose|s: int| 0 <= s < os.schedule@.len() && os.upstreams@[#[trigger] os.schedule@[s] as int].eligible(gm, now_ms);
                let j = if s >= start { s - start } else { s + len - start };
                assert(slot_at(start as int, j, len as int) == s);
            }
        }
        None
    }

    /// Picks an upstream and a credential, ignoring model support.
    pub fn select(&mut self, now_ms: u64) -> (r: Option<Selected>)
        requires
            old(self).wf(),
        ensures
            final(self).wf(),
            final(self).snapshot.same_routing(&old(self).snapshot),
            final(self).generation == old(self).generation,
            final(self).ban == old(self).ban,
            final(self).stats == counted_selection(old(self).stats, r),
            final(self).usage_inject_upstreams == old(self).usage_inject_upstreams,
            final(self).proxy_tokens == old(self).proxy_tokens,
            final(self).admin_tokens == old(self).admin_tokens,
            forall|i: int| 0 <= i < final(self).snapshot.upstreams@.len() ==> (#[trigger] final(self).snapshot.upstreams@[i]).stats == if r matches Some(s) && s.upstream == i {
                UpstreamStats { selected_total: old(self).snapshot.upstreams@[i].stats.selected_total.wrapping_add(1), ..old(self).snapshot.upstreams@[i].stats }
            } else {
                old(self).snapshot.upstreams@[i].stats
            },
            exists|k: nat| k <= old(self).snapshot.schedule@.len() && final(self).sched_rr == advanced(old(self).sched_rr, k),
            old(self).selection_ok(r, None, now_ms),
    {
        self.select_inner(None, now_ms)
    }

    /// Picks an upstream that serves `model` and one of its credentials,
    /// scanning at most one full turn of the weighted schedule.
    pub fn select_for_model(&mut self, model: &str, now_ms: u64) -> (r: Option<Selected>)
        requires
            old(self).wf(),
        ensures
            final(self).wf(),
            final(self).snapshot.same_routing(&old(self).snapshot),
            final(self).generation == old(self).generation,
            final(self).ban == old(self).ban,
            final(self).stats == counted_selection(old(self).stats, r),
            final(self).usage_inject_upstreams == old(self).usage_inject_upstreams,
            final(self).proxy_tokens == old(self).proxy_tokens,
            final(self).admin_tokens == old(self).admin_tokens,
            forall|i: int| 0 <= i < final(self).snapshot.upstreams@.len() ==> (#[trigger] final(self).snapshot.upstreams@[i]).stats == if r matches Some(s) && s.upstream == i {
                UpstreamStats { selected_total: old(self).snapshot.upstreams@[i].stats.selected_total.wrapping_add(1), ..old(self).snapshot.upstreams@[i].stats }
            } else {
                old(self).snapshot.upstreams@[i].stats
            },
            exists|k: nat| k <= old(self).snapshot.schedule@.len() && final(self).sched_rr == advanced(old(self).sched_rr, k),
            old(self).selection_ok(r, Some(model@), now_ms),
    {
        self.select_inner(Some(model), now_ms)
    }

    /// Whether any upstream of the snapshot serves `model`.
    pub fn model_exists(&self, model: &str) -> (r: bool)
        ensures
            r == exists|i: int|
                0 <= i < self.snapshot.upstreams@.len() && set_items(
                    #[trigger] self.snapshot.upstreams@[i].models,
                ).contains(model@),
    {
        let n = self.snapshot.upstreams.len();
        let mut i: usize = 0;
        while i < n
            invariant
                n == self.snapshot.upstreams@.len(),
                i <= n,
                forall|j: int| 0 <= j < i ==> !set_items(#[trigger] self.snapshot.upstreams@[j].models).contains(model@),
            decreases n - i,
        {
            if text_set_contains(&self.snapshot.upstreams[i].models, model) {
                return true;
            }
            i = i + 1;
        }
        false
    }

    /// Position of the upstream with the given id.
    pub fn upstream_by_id(&self, id: &str) -> (r: Option<usize>)
        ensures
            match r {
                Some(i) => i < self.snapshot.upstreams@.len() && self.snapshot.upstreams@[i as int].id@ == id@,
                None => forall|i: int| 0 <= i < self.snapshot.upstreams@.len() ==> #[trigger] self.snapshot.upstreams@[i].id@ != id@,
            },
    {
        let n = self.snapshot.upstreams.len();
        let mut i: usize = 0;
        while i < n
            invariant
                n == self.snapshot.upstreams@.len(),
                i <= n,
                forall|j: int| 0 <= j < i ==> #[trigger] self.snapshot.upstreams@[j].id@ != id@,
            decreases n - i,
        {
            if text_eq(self.snapshot.upstreams[i].id.as_str(), id) {
                return Some(i);
            }
            i = i + 1;
        }
        None
    }
}

} // verus!
