use crate::config::BanConfig;
use crate::proxy::{should_retry, MAX_RETRIES};
use crate::router::{KeyState, RouterState, Selected, Stats, Upstream, UpstreamStats};
use vstd::prelude::*;

verus! {

/// Backoff exponents never exceed this, whatever the configuration says.
pub const MAX_BACKOFF_POW: u32 = 30;

pub open spec fn pow2(n: nat) -> nat
    decreases n,
{
    if n == 0 {
        1
    } else {
        2 * pow2((n - 1) as nat)
    }
}

pub open spec fn min_nat(a: nat, b: nat) -> nat {
    if a <= b {
        a
    } else {
        b
    }
}

/// Exponent for a streak of `streak` consecutive failures (`streak >= 1`).
pub open spec fn backoff_exponent(streak: u32, max_pow: u32) -> nat {
    min_nat((streak - 1) as nat, min_nat(max_pow as nat, MAX_BACKOFF_POW as nat))
}

pub open spec fn sat_mul(a: u64, b: nat) -> u64 {
    if a * b > u64::MAX {
        u64::MAX
    } else {
        (a * b) as u64
    }
}

pub open spec fn sat_add(a: u64, b: u64) -> u64 {
    if a + b > u64::MAX {
        u64::MAX
    } else {
        (a + b) as u64
    }
}

/// Cooldown in milliseconds: `base * 2^min(streak-1, max_pow)`, saturating.
pub open spec fn backoff(base: u64, streak: u32, max_pow: u32) -> u64 {
    sat_mul(base, pow2(backoff_exponent(streak, max_pow)))
}

/// End of the cooldown installed at `now` for the given streak.
pub open spec fn cooldown_until(now: u64, base: u64, streak: u32, max_pow: u32) -> u64 {
    sat_add(now, backoff(base, streak, max_pow))
}

/// A streak after one more failure; it stops growing at `u32::MAX`.
pub open spec fn next_streak(s: u32) -> u32 {
    if s == u32::MAX {
        s
    } else {
        (s + 1) as u32
    }
}

proof fn lemma_pow2_pos(n: nat)
    ensures
        pow2(n) >= 1,
    decreases n,
{
    if n > 0 {
        lemma_pow2_pos((n - 1) as nat);
    }
}

proof fn lemma_pow2_small(n: nat)
    requires
        n <= 30,
    ensures
        pow2(n) <= 0x4000_0000,
{
    reveal_with_fuel(pow2, 31);
    lemma_pow2_mono(n, 30);
}

/// The cooldown that the breaker installs lies between `now + base` and
/// `now + base * 2^min(streak-1, max_pow)`, both saturating.
pub proof fn lemma_cooldown_bounds(now: u64, base: u64, streak: u32, max_pow: u32)
    requires
        streak >= 1,
    ensures
        sat_add(now, base) <= cooldown_until(now, base, streak, max_pow),
        cooldown_until(now, base, streak, max_pow) <= sat_add(
            now,
            sat_mul(base, pow2(min_nat((streak - 1) as nat, max_pow as nat))),
        ),
        cooldown_until(now, base, streak, max_pow) >= now,
{
    let e = backoff_exponent(streak, max_pow);
    let e2 = min_nat((streak - 1) as nat, max_pow as nat);
    lemma_pow2_pos(e);
    assert(base * pow2(e) >= base) by (nonlinear_arith)
        requires
            pow2(e) >= 1,
    ;
    lemma_pow2_mono(e, e2);
    assert(base * pow2(e) <= base * pow2(e2)) by (nonlinear_arith)
        requires
            pow2(e) <= pow2(e2),
    ;
}

proof fn lemma_pow2_mono(a: nat, b: nat)
    requires
        a <= b,
    ensures
        pow2(a) <= pow2(b),
    decreases b,
{
    if a < b {
        lemma_pow2_mono(a, (b - 1) as nat);
        lemma_pow2_pos((b - 1) as nat);
    }
}

/// `base * 2^min(streak-1, min(max_pow, 30))`, saturating at `u64::MAX`.
pub fn backoff_ms(base: u64, streak: u32, max_pow: u32) -> (r: u64)
    requires
        streak >= 1,
    ensures
        r == backoff(base, streak, max_pow),
{
    let cap = if max_pow < MAX_BACKOFF_POW { max_pow } else { MAX_BACKOFF_POW };
    let pow = if streak - 1 < cap { streak - 1 } else { cap };
    let mut mult: u64 = 1;
    let mut i: u32 = 0;
    while i < pow
        invariant
            i <= pow,
            pow <= 30,
            mult == pow2(i as nat),
        decreases pow - i,
    {
        proof {
            lemma_pow2_small((i + 1) as nat);
        }
        mult = mult * 2;
        i = i + 1;
    }
    match base.checked_mul(mult) {
        Some(v) => v,
        None => u64::MAX,
    }
}

fn add_saturating(a: u64, b: u64) -> (r: u64)
    ensures
        r == sat_add(a, b),
{
    if a > u64::MAX - b {
        u64::MAX
    } else {
        a + b
    }
}

/// Counts one more failure and puts the subject on cooldown until
/// `now + backoff`.
fn apply_backoff(fail_streak: u32, base_ms: u64, now_ms: u64, max_pow: u32) -> (r: (u64, u32))
    ensures
        r.1 == next_streak(fail_streak),
        r.0 == cooldown_until(now_ms, base_ms, next_streak(fail_streak), max_pow),
{
    let streak = if fail_streak == u32::MAX { u32::MAX } else { fail_streak + 1 };
    let ban_ms = backoff_ms(base_ms, streak, max_pow);
    (add_saturating(now_ms, ban_ms), streak)
}

/// The breaker's action for a response status.
pub enum StatusAction {
    /// `429`: back off the credential with the rate-limit base.
    BanKeyRateLimit,
    /// `401` or `403`: back off the credential with the auth-error base.
    BanKeyAuth,
    /// `>= 500`: back off the upstream with the server-error base.
    BanUpstream,
    /// Anything else: the credential's streak is reset.
    ResetKey,
}

pub open spec fn status_action(status: u16) -> StatusAction {
    if status == 429 {
        StatusAction::BanKeyRateLimit
    } else if status == 401 || status == 403 {
        StatusAction::BanKeyAuth
    } else if status >= 500 {
        StatusAction::BanUpstream
    } else {
        StatusAction::ResetKey
    }
}

/// The credential after a response with `status` at `now`.
pub open spec fn key_after_status(k: KeyState, status: u16, now: u64, ban: BanConfig) -> KeyState {
    match status_action(status) {
        StatusAction::BanKeyRateLimit => KeyState {
            fail_streak: next_streak(k.fail_streak),
            cooldown_until_ms: cooldown_until(now, ban.rate_limit_ms, next_streak(k.fail_streak), ban.max_backoff_pow),
            ..k
        },
        StatusAction::BanKeyAuth => KeyState {
            fail_streak: next_streak(k.fail_streak),
            cooldown_until_ms: cooldown_until(now, ban.auth_error_ms, next_streak(k.fail_streak), ban.max_backoff_pow),
            ..k
        },
        StatusAction::BanUpstream => k,
        StatusAction::ResetKey => KeyState { fail_streak: 0, ..k },
    }
}

/// The upstream's `(cooldown_until_ms, fail_streak)` after a response: a
/// response proves it reachable, so both are reset first; a `5xx` then counts
/// as the first failure of a new streak.
pub open spec fn upstream_breaker_after_status(status: u16, now: u64, ban: BanConfig) -> (u64, u32) {
    if status_action(status) is BanUpstream {
        (cooldown_until(now, ban.server_error_ms, 1, ban.max_backoff_pow), 1)
    } else {
        (0, 0)
    }
}

pub open spec fn stats_after_status(s: UpstreamStats, status: u16) -> UpstreamStats {
    if 200 <= status < 300 {
        UpstreamStats { responses_2xx: s.responses_2xx.wrapping_add(1), ..s }
    } else if 300 <= status < 400 {
        UpstreamStats { responses_3xx: s.responses_3xx.wrapping_add(1), ..s }
    } else if 400 <= status < 500 {
        UpstreamStats { responses_4xx: s.responses_4xx.wrapping_add(1), ..s }
    } else if 500 <= status < 600 {
        UpstreamStats { responses_5xx: s.responses_5xx.wrapping_add(1), ..s }
    } else {
        s
    }
}

pub open spec fn global_after_status(s: Stats, status: u16) -> Stats {
    if 200 <= status < 300 {
        Stats { responses_2xx: s.responses_2xx.wrapping_add(1), ..s }
    } else if 300 <= status < 400 {
        Stats { responses_3xx: s.responses_3xx.wrapping_add(1), ..s }
    } else if 400 <= status < 500 {
        Stats { responses_4xx: s.responses_4xx.wrapping_add(1), ..s }
    } else if 500 <= status < 600 {
        Stats { responses_5xx: s.responses_5xx.wrapping_add(1), ..s }
    } else {
        s
    }
}

/// Counts a response status in the upstream's counters.
pub fn inc_status(stats: &mut UpstreamStats, status: u16)
    ensures
        *final(stats) == stats_after_status(*old(stats), status),
{
    if 200 <= status && status < 300 {
        stats.responses_2xx = stats.responses_2xx.wrapping_add(1);
    } else if 300 <= status && status < 400 {
        stats.responses_3xx = stats.responses_3xx.wrapping_add(1);
    } else if 400 <= status && status < 500 {
        stats.responses_4xx = stats.responses_4xx.wrapping_add(1);
    } else if 500 <= status && status < 600 {
        stats.responses_5xx = stats.responses_5xx.wrapping_add(1);
    }
}

impl Upstream {
    /// Everything the breaker leaves alone.
    pub open spec fn same_identity(&self, other: &Upstream) -> bool {
        &&& self.id == other.id
        &&& self.base_url == other.base_url
        &&& self.base_scheme == other.base_scheme
        &&& self.base_authority == other.base_authority
        &&& self.base_path == other.base_path
        &&& self.weight == other.weight
        &&& self.key_rr == other.key_rr
        &&& self.models == other.models
    }
}

impl RouterState {
    /// `sel` names a credential of the current snapshot.
    pub open spec fn current(&self, sel: Selected) -> bool {
        &&& sel.generation == self.generation
        &&& sel.upstream < self.snapshot.upstreams@.len()
        &&& sel.key < self.snapshot.upstreams@[sel.upstream as int].keys@.len()
    }

    /// Only the selected upstream may differ, and in it only what the
    /// breaker owns.
    pub open spec fn breaker_frame(&self, old_state: &RouterState, sel: Selected) -> bool {
        &&& self.snapshot.schedule@ == old_state.snapshot.schedule@
        &&& self.snapshot.upstreams@.len() == old_state.snapshot.upstreams@.len()
        &&& self.generation == old_state.generation
        &&& self.sched_rr == old_state.sched_rr
        &&& self.ban == old_state.ban
        &&& forall|i: int|
            0 <= i < self.snapshot.upstreams@.len() && i != sel.upstream
                ==> #[trigger] self.snapshot.upstreams@[i] == old_state.snapshot.upstreams@[i]
        &&& (old_state.current(sel) ==> self.snapshot.upstreams@[sel.upstream as int].same_identity(
            &old_state.snapshot.upstreams@[sel.upstream as int],
        ))
        &&& (!old_state.current(sel) ==> self.snapshot.upstreams@ == old_state.snapshot.upstreams@)
    }

    proof fn lemma_breaker_keeps_wf(&self, old_state: &RouterState, sel: Selected)
        requires
            old_state.wf(),
            self.breaker_frame(old_state, sel),
            old_state.current(sel) ==> self.snapshot.upstreams@[sel.upstream as int].keys@.len()
                == old_state.snapshot.upstreams@[sel.upstream as int].keys@.len(),
            old_state.current(sel) ==> forall|j: int|
                0 <= j < self.snapshot.upstreams@[sel.upstream as int].keys@.len() ==> {
                    let a = #[trigger] self.snapshot.upstreams@[sel.upstream as int].keys@[j];
                    let b = old_state.snapshot.upstreams@[sel.upstream as int].keys@[j];
                    a.key == b.key && a.auth_header == b.auth_header
                },
        ensures
            self.wf(),
    {
        let ns = self.snapshot;
        let os = old_state.snapshot;
        assert(crate::router::weights_of(ns.upstreams@) =~= crate::router::weights_of(os.upstreams@)) by {
            assert forall|i: int| 0 <= i < ns.upstreams@.len() implies ns.upstreams@[i].weight == os.upstreams@[i].weight by {
                if i != sel.upstream {
                    assert(ns.upstreams@[i] == os.upstreams@[i]);
                }
            }
        }
        assert forall|i: int| 0 <= i < ns.upstreams@.len() implies (#[trigger] ns.upstreams@[i]).keys_wf() by {
            if i != sel.upstream || !old_state.current(sel) {
                assert(ns.upstreams@[i] == os.upstreams@[i]);
                assert(os.upstreams@[i].keys_wf());
            } else {
                assert(os.upstreams@[i].keys_wf());
                assert forall|j: int| 0 <= j < ns.upstreams@[i].keys@.len() implies (#[trigger] ns.upstreams@[i].keys@[j]).wf() by {
                    assert(os.upstreams@[i].keys@[j].wf());
                }
            }
        }
        assert forall|i: int| 0 <= i < ns.upstreams@.len() implies ns.upstreams@[i].id == os.upstreams@[i].id && 1 <= #[trigger] ns.upstreams@[i].weight <= crate::router::MAX_WEIGHT by {
            if i != sel.upstream || !old_state.current(sel) {
                assert(ns.upstreams@[i] == os.upstreams@[i]);
            }
        }
        assert forall|i: int, j: int|
            0 <= i < ns.upstreams@.len() && 0 <= j < ns.upstreams@.len() && i != j
            implies #[trigger] ns.upstreams@[i].id@ != #[trigger] ns.upstreams@[j].id@ by {
            if i != sel.upstream || !old_state.current(sel) {
                assert(ns.upstreams@[i] == os.upstreams@[i]);
            }
            if j != sel.upstream || !old_state.current(sel) {
                assert(ns.upstreams@[j] == os.upstreams@[j]);
            }
        }
    }

    fn inc_global_status(&mut self, status: u16)
        ensures
            final(self).stats == global_after_status(old(self).stats, status),
            final(self).snapshot == old(self).snapshot,
            final(self).generation == old(self).generation,
            final(self).sched_rr == old(self).sched_rr,
            final(self).ban == old(self).ban,
    {
        if 200 <= status && status < 300 {
            self.stats.responses_2xx = self.stats.responses_2xx.wrapping_add(1);
        } else if 300 <= status && status < 400 {
            self.stats.responses_3xx = self.stats.responses_3xx.wrapping_add(1);
        } else if 400 <= status && status < 500 {
            self.stats.responses_4xx = self.stats.responses_4xx.wrapping_add(1);
        } else if 500 <= status && status < 600 {
            self.stats.responses_5xx = self.stats.responses_5xx.wrapping_add(1);
        }
    }

    /// Applies the breaker to a response with HTTP `status` received through
    /// `sel` at `now_ms`. A selection from an older generation only counts
    /// in the global counters.
    pub fn on_upstream_status(&mut self, sel: Selected, status: u16, now_ms: u64)
        requires
            old(self).wf(),
        ensures
            final(self).wf(),
            final(self).breaker_frame(old(self), sel),
            final(self).stats == global_after_status(old(self).stats, status),
            old(self).current(sel) ==> {
                let ou = old(self).snapshot.upstreams@[sel.upstream as int];
                let nu = final(self).snapshot.upstreams@[sel.upstream as int];
                &&& nu.keys@ == ou.keys@.update(
                    sel.key as int,
                    key_after_status(ou.keys@[sel.key as int], status, now_ms, old(self).ban),
                )
                &&& (nu.cooldown_until_ms, nu.fail_streak) == upstream_breaker_after_status(
                    status,
                    now_ms,
                    old(self).ban,
                )
                &&& nu.stats == stats_after_status(ou.stats, status)
            },
    {
        self.inc_global_status(status);
        if sel.generation != self.generation || sel.upstream >= self.snapshot.upstreams.len()
            || sel.key >= self.snapshot.upstreams[sel.upstream].keys.len() {
            return;
        }
        let ghost mid = *self;
        let u = sel.upstream;
        let k = sel.key;
        let cfg = self.ban;
        self.snapshot.upstreams[u].fail_streak = 0;
        self.snapshot.upstreams[u].cooldown_until_ms = 0;
        inc_status(&mut self.snapshot.upstreams[u].stats, status);
        if status == 429 {
            let (until, streak) = apply_backoff(
                self.snapshot.upstreams[u].keys[k].fail_streak,
                cfg.rate_limit_ms,
                now_ms,
                cfg.max_backoff_pow,
            );
            self.snapshot.upstreams[u].keys[k].cooldown_until_ms = until;
            self.snapshot.upstreams[u].keys[k].fail_streak = streak;
        } else if status == 401 || status == 403 {
            let (until, streak) = apply_backoff(
                self.snapshot.upstreams[u].keys[k].fail_streak,
                cfg.auth_error_ms,
                now_ms,
                cfg.max_backoff_pow,
            );
            self.snapshot.upstreams[u].keys[k].cooldown_until_ms = until;
            self.snapshot.upstreams[u].keys[k].fail_streak = streak;
        } else if status >= 500 {
            let (until, streak) = apply_backoff(
                self.snapshot.upstreams[u].fail_streak,
                cfg.server_error_ms,
                now_ms,
                cfg.max_backoff_pow,
            );
            self.snapshot.upstreams[u].cooldown_until_ms = until;
            self.snapshot.upstreams[u].fail_streak = streak;
        } else {
            self.snapshot.upstreams[u].keys[k].fail_streak = 0;
        }
        proof {
            let ou = old(self).snapshot.upstreams@[u as int];
            let nu = self.snapshot.upstreams@[u as int];
            assert(nu.keys@ =~= ou.keys@.update(
                k as int,
                key_after_status(ou.keys@[k as int], status, now_ms, old(self).ban),
            ));
            self.lemma_breaker_keeps_wf(old(self), sel);
        }
    }

    fn network_failure(&mut self, sel: Selected, now_ms: u64)
        requires
            old(self).wf(),
        ensures
            final(self).wf(),
            final(self).breaker_frame(old(self), sel),
            final(self).stats == old(self).stats,
            old(self).current(sel) ==> {
                let ou = old(self).snapshot.upstreams@[sel.upstream as int];
                let nu = final(self).snapshot.upstreams@[sel.upstream as int];
                &&& nu.keys@ == ou.keys@
                &&& nu.stats == ou.stats
                &&& nu.fail_streak == next_streak(ou.fail_streak)
                &&& nu.cooldown_until_ms == cooldown_until(
                    now_ms,
                    old(self).ban.network_error_ms,
                    next_streak(ou.fail_streak),
                    old(self).ban.max_backoff_pow,
                )
            },
    {
        if sel.generation != self.generation || sel.upstream >= self.snapshot.upstreams.len()
            || sel.key >= self.snapshot.upstreams[sel.upstream].keys.len() {
            return;
        }
        let u = sel.upstream;
        let cfg = self.ban;
        let (until, streak) = apply_backoff(
            self.snapshot.upstreams[u].fail_streak,
            cfg.network_error_ms,
            now_ms,
            cfg.max_backoff_pow,
        );
        self.snapshot.upstreams[u].cooldown_until_ms = until;
        self.snapshot.upstreams[u].fail_streak = streak;
        proof {
            self.lemma_breaker_keeps_wf(old(self), sel);
        }
    }

    /// The round trip through `sel` exceeded its deadline: counts a timeout
    /// and backs off the upstream with the network-error base.
    pub fn on_timeout(&mut self, sel: Selected, now_ms: u64)
        requires
            old(self).wf(),
        ensures
            final(self).wf(),
            final(self).breaker_frame(old(self), sel),
            final(self).stats == (Stats {
                errors_timeout: old(self).stats.errors_timeout.wrapping_add(1),
                ..old(self).stats
            }),
            old(self).current(sel) ==> {
                let ou = old(self).snapshot.upstreams@[sel.upstream as int];
                let nu = final(self).snapshot.upstreams@[sel.upstream as int];
                &&& nu.keys@ == ou.keys@
                &&& nu.stats == (UpstreamStats {
                    errors_timeout: ou.stats.errors_timeout.wrapping_add(1),
                    ..ou.stats
                })
                &&& nu.fail_streak == next_streak(ou.fail_streak)
                &&& nu.cooldown_until_ms == cooldown_until(
                    now_ms,
                    old(self).ban.network_error_ms,
                    next_streak(ou.fail_streak),
                    old(self).ban.max_backoff_pow,
                )
            },
    {
        self.stats.errors_timeout = self.stats.errors_timeout.wrapping_add(1);
        if sel.generation == self.generation && sel.upstream < self.snapshot.upstreams.len()
            && sel.key < self.snapshot.upstreams[sel.upstream].keys.len() {
            let u = sel.upstream;
            self.snapshot.upstreams[u].stats.errors_timeout =
                self.snapshot.upstreams[u].stats.errors_timeout.wrapping_add(1);
        }
        proof {
            self.lemma_breaker_keeps_wf(old(self), sel);
        }
        self.network_failure(sel, now_ms);
    }

    /// The round trip through `sel` failed in transport: counts a network
    /// error and backs off the upstream with the network-error base.
    pub fn on_network_error(&mut self, sel: Selected, now_ms: u64)
        requires
            old(self).wf(),
        ensures
            final(self).wf(),
            final(self).breaker_frame(old(self), sel),
            final(self).stats == (Stats {
                errors_network: old(self).stats.errors_network.wrapping_add(1),
                ..old(self).stats
            }),
            old(self).current(sel) ==> {
                let ou = old(self).snapshot.upstreams@[sel.upstream as int];
                let nu = final(self).snapshot.upstreams@[sel.upstream as int];
                &&& nu.keys@ == ou.keys@
                &&& nu.stats == (UpstreamStats {
                    errors_network: ou.stats.errors_network.wrapping_add(1),
                    ..ou.stats
                })
                &&& nu.fail_streak == next_streak(ou.fail_streak)
                &&& nu.cooldown_until_ms == cooldown_until(
                    now_ms,
                    old(self).ban.network_error_ms,
                    next_streak(ou.fail_streak),
                    old(self).ban.max_backoff_pow,
                )
            },
    {
        self.stats.errors_network = self.stats.errors_network.wrapping_add(1);
        if sel.generation == self.generation && sel.upstream < self.snapshot.upstreams.len()
            && sel.key < self.snapshot.upstreams[sel.upstream].keys.len() {
            let u = sel.upstream;
            self.snapshot.upstreams[u].stats.errors_network =
                self.snapshot.upstreams[u].stats.errors_network.wrapping_add(1);
        }
        proof {
            self.lemma_breaker_keeps_wf(old(self), sel);
        }
        self.network_failure(sel, now_ms);
    }
}

impl RouterState {
    /// One step of the forwarding loop after a response with `status`
    /// arrived through `sel`: the breaker is applied, and while a `429` leaves
    /// retries, another selection for `model` is made against the updated
    /// cooldowns. `None` means the response goes back to the caller.
    pub fn retry_after_status(
        &mut self,
        sel: Selected,
        status: u16,
        retries_done: usize,
        model: &str,
        now_ms: u64,
    ) -> (r: Option<Selected>)
        requires
            old(self).wf(),
        ensures
            final(self).wf(),
            r is Some ==> status == 429 && retries_done < MAX_RETRIES,
            match r {
                Some(s) => {
                    &&& s.generation == final(self).generation
                    &&& s.upstream < final(self).snapshot.upstreams@.len()
                    &&& s.key < final(self).snapshot.upstreams@[s.upstream as int].keys@.len()
                    &&& final(self).snapshot.upstreams@[s.upstream as int].eligible(Some(model@), now_ms)
                    &&& final(self).snapshot.upstreams@[s.upstream as int].keys@[s.key as int].eligible(now_ms)
                },
                None => true,
            },
            old(self).current(sel) && status == 429 && old(self).ban.rate_limit_ms > 0 && now_ms < u64::MAX
                ==> (r matches Some(s) ==> !(s.upstream == sel.upstream && s.key == sel.key)),
            final(self).generation == old(self).generation,
            final(self).ban == old(self).ban,
            final(self).snapshot.schedule@ == old(self).snapshot.schedule@,
            final(self).snapshot.upstreams@.len() == old(self).snapshot.upstreams@.len(),
            forall|i: int| 0 <= i < old(self).snapshot.upstreams@.len() && (i != sel.upstream || !old(self).current(sel))
                ==> (#[trigger] final(self).snapshot.upstreams@[i]).same_routing(&old(self).snapshot.upstreams@[i]),
            old(self).current(sel) ==> {
                let ou = old(self).snapshot.upstreams@[sel.upstream as int];
                let nu = final(self).snapshot.upstreams@[sel.upstream as int];
                &&& nu.keys@ == ou.keys@.update(
                    sel.key as int,
                    key_after_status(ou.keys@[sel.key as int], status, now_ms, old(self).ban),
                )
                &&& (nu.cooldown_until_ms, nu.fail_streak) == upstream_breaker_after_status(status, now_ms, old(self).ban)
                &&& nu.id == ou.id
            },
            r is None <==> (!(status == 429 && retries_done < MAX_RETRIES) || !final(self).snapshot.any_eligible(Some(model@), now_ms)),
    {
        self.on_upstream_status(sel, status, now_ms);
        let ghost mid = *self;
        if !should_retry(status, retries_done) {
            proof {
                assert forall|i: int| 0 <= i < old(self).snapshot.upstreams@.len() && (i != sel.upstream || !old(self).current(sel))
                    implies (#[trigger] self.snapshot.upstreams@[i]).same_routing(&old(self).snapshot.upstreams@[i]) by {
                    assert(self.snapshot.upstreams@[i] == old(self).snapshot.upstreams@[i]);
                }
            }
            return None;
        }
        let r = self.select_for_model(model, now_ms);
        proof {
            self.snapshot.lemma_same_routing_eligible(&mid.snapshot, Some(model@), now_ms);
            assert forall|i: int| 0 <= i < old(self).snapshot.upstreams@.len() && (i != sel.upstream || !old(self).current(sel))
                implies (#[trigger] self.snapshot.upstreams@[i]).same_routing(&old(self).snapshot.upstreams@[i]) by {
                assert(self.snapshot.upstreams@[i].same_routing(&mid.snapshot.upstreams@[i]));
                assert(mid.snapshot.upstreams@[i] == old(self).snapshot.upstreams@[i]);
            }
            if old(self).current(sel) {
                assert(self.snapshot.upstreams@[sel.upstream as int].same_routing(&mid.snapshot.upstreams@[sel.upstream as int]));
            }
            if r is Some {
                let s = r->Some_0;
                let j = choose|j: int| 0 <= j < mid.snapshot.schedule@.len() && #[trigger] mid.snapshot.schedule@[j] == s.upstream;
                assert(mid.snapshot.upstreams@[mid.snapshot.schedule@[j] as int].eligible(Some(model@), now_ms));
                assert(mid.snapshot.any_eligible(Some(model@), now_ms));
            }
        }
        proof {
            if r is Some {
                let s = r->Some_0;
                assert(self.snapshot.upstreams@[s.upstream as int].same_routing(&mid.snapshot.upstreams@[s.upstream as int]));
                if old(self).current(sel) && status == 429 && old(self).ban.rate_limit_ms > 0 && now_ms < u64::MAX
                    && s.upstream == sel.upstream && s.key == sel.key {
                    let k = old(self).snapshot.upstreams@[sel.upstream as int].keys@[sel.key as int];
                    lemma_cooldown_bounds(now_ms, old(self).ban.rate_limit_ms, next_streak(k.fail_streak), old(self).ban.max_backoff_pow);
                    assert(mid.snapshot.upstreams@[sel.upstream as int].keys@[sel.key as int].cooldown_until_ms
                        == cooldown_until(now_ms, old(self).ban.rate_limit_ms, next_streak(k.fail_streak), old(self).ban.max_backoff_pow));
                }
            }
        }
        r
    }
}

} // verus!
