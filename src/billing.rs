use crate::text::{trim_text, trimmed};
use crate::sets::{BalanceMap, balance_map_get, balance_map_insert, balance_map_new, map_items};
use vstd::prelude::*;

verus! {

/// Staged balance writes are flushed once this many keys are pending.
pub const FLUSH_BATCH: usize = 1024;

/// Staged balance writes are flushed once this much time has passed.
pub const FLUSH_INTERVAL_MS: u64 = 1000;

/// Prepaid token balances by billing key, with the writes that still have
/// to reach durable storage.
pub struct BillingStore {
    balances: BalanceMap,
    outbox: Vec<(String, i64)>,
}

pub open spec fn sat_add_i64(a: i64, d: i64) -> i64 {
    if a + d > i64::MAX {
        i64::MAX
    } else if a + d < i64::MIN {
        i64::MIN
    } else {
        (a + d) as i64
    }
}

pub open spec fn writes_view(w: Seq<(String, i64)>) -> Seq<(Seq<char>, i64)> {
    w.map_values(|p: (String, i64)| (p.0@, p.1))
}

impl BillingStore {
    pub closed spec fn balances_view(&self) -> Map<Seq<char>, i64> {
        map_items(self.balances)
    }

    /// Writes not yet handed to the persister, oldest first.
    pub closed spec fn pending_view(&self) -> Seq<(Seq<char>, i64)> {
        writes_view(self.outbox@)
    }

    /// An empty store.
    pub fn new() -> (r: BillingStore)
        ensures
            r.balances_view() == Map::<Seq<char>, i64>::empty(),
            r.pending_view() == Seq::<(Seq<char>, i64)>::empty(),
    {
        let r = BillingStore { balances: balance_map_new(), outbox: Vec::new() };
        assert(writes_view(r.outbox@) =~= Seq::<(Seq<char>, i64)>::empty());
        r
    }

    /// Loads a stored `(key, encoded balance)`; entries whose value is not
    /// eight bytes are skipped.
    pub fn load_entry(&mut self, key: String, value: &[u8])
        ensures
            final(self).pending_view() == old(self).pending_view(),
            final(self).balances_view() == match decode_spec(value@) {
                Some(b) => old(self).balances_view().insert(key@, b),
                None => old(self).balances_view(),
            },
    {
        match decode_balance(value) {
            Some(b) => balance_map_insert(&mut self.balances, key, b),
            None => {},
        }
    }

    /// Creates a key with a starting balance; `false` when it already exists.
    pub fn create_key(&mut self, key: String, balance: i64) -> (r: bool)
        ensures
            r == !old(self).balances_view().contains_key(key@),
            r ==> final(self).balances_view() == old(self).balances_view().insert(key@, balance),
            r ==> final(self).pending_view() == old(self).pending_view().push((key@, balance)),
            !r ==> final(self).balances_view() == old(self).balances_view(),
            !r ==> final(self).pending_view() == old(self).pending_view(),
    {
        if balance_map_get(&self.balances, key.as_str()).is_some() {
            return false;
        }
        let k2 = key.clone();
        balance_map_insert(&mut self.balances, key, balance);
        let ghost before = self.outbox@;
        self.outbox.push((k2, balance));
        assert(writes_view(self.outbox@) =~= writes_view(before).push((k2@, balance)));
        true
    }

    /// The current balance of a key.
    pub fn get_balance(&self, key: &str) -> (r: Option<i64>)
        ensures
            r == if self.balances_view().contains_key(key@) {
                Some(self.balances_view()[key@])
            } else {
                None
            },
    {
        balance_map_get(&self.balances, key)
    }

    /// Adds `delta` to a key's balance, saturating at the `i64` bounds;
    /// `None` for an unknown key.
    pub fn adjust_balance(&mut self, key: &str, delta: i64) -> (r: Option<i64>)
        ensures
            match r {
                Some(n) => {
                    &&& old(self).balances_view().contains_key(key@)
                    &&& n == sat_add_i64(old(self).balances_view()[key@], delta)
                    &&& final(self).balances_view() == old(self).balances_view().insert(key@, n)
                    &&& final(self).pending_view() == old(self).pending_view().push((key@, n))
                },
                None => {
                    &&& !old(self).balances_view().contains_key(key@)
                    &&& final(self).balances_view() == old(self).balances_view()
                    &&& final(self).pending_view() == old(self).pending_view()
                },
            },
    {
        let cur = match balance_map_get(&self.balances, key) {
            Some(c) => c,
            None => return None,
        };
        let new_balance = if delta > 0 && cur > i64::MAX - delta {
            i64::MAX
        } else if delta < 0 && cur < i64::MIN - delta {
            i64::MIN
        } else {
            cur + delta
        };
        balance_map_insert(&mut self.balances, key.to_owned(), new_balance);
        let ghost before = self.outbox@;
        self.outbox.push((key.to_owned(), new_balance));
        assert(writes_view(self.outbox@) =~= writes_view(before).push((key@, new_balance)));
        Some(new_balance)
    }

    /// Debits `total_tokens` from a key. Zero usage reads the balance and
    /// writes nothing; usage beyond `i64::MAX` is refused with `None`.
    pub fn apply_usage(&mut self, key: &str, total_tokens: u64) -> (r: Option<i64>)
        ensures
            total_tokens > i64::MAX ==> r is None && final(self).unchanged(old(self)),
            total_tokens == 0 ==> r == old(self).get_balance_spec(key@) && final(self).unchanged(old(self)),
            0 < total_tokens <= i64::MAX ==> match r {
                Some(n) => {
                    &&& old(self).balances_view().contains_key(key@)
                    &&& n == sat_add_i64(old(self).balances_view()[key@], -(total_tokens as int) as i64)
                    &&& final(self).balances_view() == old(self).balances_view().insert(key@, n)
                    &&& final(self).pending_view() == old(self).pending_view().push((key@, n))
                },
                None => {
                    &&& !old(self).balances_view().contains_key(key@)
                    &&& final(self).unchanged(old(self))
                },
            },
    {
        if total_tokens > i64::MAX as u64 {
            return None;
        }
        let delta = total_tokens as i64;
        if delta == 0 {
            return self.get_balance(key);
        }
        self.adjust_balance(key, -delta)
    }

    pub open spec fn unchanged(&self, other: &BillingStore) -> bool {
        self.balances_view() == other.balances_view() && self.pending_view() == other.pending_view()
    }

    pub open spec fn get_balance_spec(&self, key: Seq<char>) -> Option<i64> {
        if self.balances_view().contains_key(key) {
            Some(self.balances_view()[key])
        } else {
            None
        }
    }

    /// Hands the pending writes over, oldest first, and forgets them.
    pub fn take_pending(&mut self) -> (r: Vec<(String, i64)>)
        ensures
            writes_view(r@) == old(self).pending_view(),
            final(self).pending_view() == Seq::<(Seq<char>, i64)>::empty(),
            final(self).balances_view() == old(self).balances_view(),
    {
        let mut out: Vec<(String, i64)> = Vec::new();
        std::mem::swap(&mut out, &mut self.outbox);
        assert(writes_view(self.outbox@) =~= Seq::<(Seq<char>, i64)>::empty());
        out
    }
}

/// A billing key as an admin submits it: trimmed; `None` when blank.
pub fn clean_billing_key(raw: &str) -> (r: Option<String>)
    ensures
        match r {
            Some(k) => k@ == trimmed(raw@) && k@.len() > 0,
            None => trimmed(raw@).len() == 0,
        },
{
    let k = trim_text(raw);
    if k.as_str().unicode_len() == 0 {
        None
    } else {
        Some(k)
    }
}

/// Whether the persister flushes its staged writes now.
pub fn should_flush(pending: usize, elapsed_ms: u64) -> (r: bool)
    ensures
        r == (pending >= FLUSH_BATCH || elapsed_ms >= FLUSH_INTERVAL_MS),
{
    pending >= FLUSH_BATCH || elapsed_ms >= FLUSH_INTERVAL_MS
}

pub open spec fn pow256(n: nat) -> nat
    decreases n,
{
    if n == 0 {
        1
    } else {
        256 * pow256((n - 1) as nat)
    }
}

/// Unsigned value of little-endian bytes.
pub open spec fn le_value(b: Seq<u8>) -> nat
    decreases b.len(),
{
    if b.len() == 0 {
        0
    } else {
        b[0] as nat + 256 * le_value(b.drop_first())
    }
}

/// The two's-complement reading of a 64-bit unsigned value.
pub open spec fn signed_of(v: nat) -> int {
    if v >= 0x8000_0000_0000_0000 {
        v - 0x1_0000_0000_0000_0000
    } else {
        v as int
    }
}

/// A stored balance: eight little-endian bytes of a two's-complement `i64`.
pub open spec fn decode_spec(b: Seq<u8>) -> Option<i64> {
    if b.len() == 8 {
        Some(signed_of(le_value(b)) as i64)
    } else {
        None
    }
}

proof fn lemma_le_value_bound(b: Seq<u8>)
    ensures
        le_value(b) < pow256(b.len()),
    decreases b.len(),
{
    if b.len() > 0 {
        lemma_le_value_bound(b.drop_first());
        assert(le_value(b) < pow256(b.len())) by (nonlinear_arith)
            requires
                le_value(b) == b[0] as nat + 256 * le_value(b.drop_first()),
                le_value(b.drop_first()) < pow256(b.drop_first().len()),
                pow256(b.len()) == 256 * pow256(b.drop_first().len()),
                b[0] < 256,
        ;
    }
}

proof fn lemma_le_value_push(b: Seq<u8>, x: u8)
    ensures
        le_value(b.push(x)) == le_value(b) + pow256(b.len()) * x,
    decreases b.len(),
{
    if b.len() == 0 {
        assert(b.push(x).drop_first() =~= Seq::<u8>::empty());
        assert(le_value(b.push(x).drop_first()) == 0);
        assert(pow256(0) == 1);
    } else {
        assert(b.push(x).drop_first() =~= b.drop_first().push(x));
        assert(b.push(x)[0] == b[0]);
        assert(pow256(b.len()) == 256 * pow256(b.drop_first().len()));
        lemma_le_value_push(b.drop_first(), x);
        assert(256 * (le_value(b.drop_first()) + pow256(b.drop_first().len()) * x) == 256 * le_value(b.drop_first()) + pow256(b.len()) * x) by (nonlinear_arith)
            requires
                pow256(b.len()) == 256 * pow256(b.drop_first().len()),
        ;
    }
}

/// Reads a stored balance; `None` unless it is exactly eight bytes.
pub fn decode_balance(bytes: &[u8]) -> (r: Option<i64>)
    ensures
        r == decode_spec(bytes@),
{
    if bytes.len() != 8 {
        return None;
    }
    let mut v: u64 = 0;
    let mut i: usize = 8;
    proof {
        reveal_with_fuel(pow256, 9);
    }
    while i > 0
        invariant
            bytes@.len() == 8,
            i <= 8,
            v as nat == le_value(bytes@.subrange(i as int, 8)),
            v < pow256((8 - i) as nat),
            pow256(8) == 0x1_0000_0000_0000_0000,
        decreases i,
    {
        let ghost rest = bytes@.subrange(i as int, 8);
        assert(bytes@.subrange(i - 1, 8).drop_first() =~= rest);
        proof {
            lemma_le_value_bound(bytes@.subrange(i - 1, 8));
            assert(pow256((8 - i) as nat) <= pow256(7)) by {
                lemma_pow256_mono((8 - i) as nat, 7);
            }
            reveal_with_fuel(pow256, 8);
        }
        assert(v * 256 + bytes[i - 1] as u64 <= u64::MAX) by (nonlinear_arith)
            requires
                v < pow256((8 - i) as nat),
                pow256((8 - i) as nat) <= pow256(7),
                pow256(7) == 0x100_0000_0000_0000,
        ;
        v = v * 256 + bytes[i - 1] as u64;
        i = i - 1;
        proof {
            lemma_le_value_bound(bytes@.subrange(i as int, 8));
        }
    }
    assert(bytes@.subrange(0, 8) =~= bytes@);
    if v >= 0x8000_0000_0000_0000 {
        Some(((v - 0x8000_0000_0000_0000) as i64) + i64::MIN)
    } else {
        Some(v as i64)
    }
}

proof fn lemma_pow256_mono(a: nat, b: nat)
    requires
        a <= b,
    ensures
        pow256(a) <= pow256(b),
    decreases b,
{
    if a < b {
        lemma_pow256_mono(a, (b - 1) as nat);
    }
}

/// Encodes a balance as eight little-endian bytes; `decode_balance` reads it
/// back unchanged.
pub fn encode_balance(balance: i64) -> (r: Vec<u8>)
    ensures
        r@.len() == 8,
        decode_spec(r@) == Some(balance),
{
    let orig: u64 = if balance >= 0 {
        balance as u64
    } else {
        ((balance - i64::MIN) as u64) + 0x8000_0000_0000_0000
    };
    let mut u: u64 = orig;
    let mut out: Vec<u8> = Vec::new();
    let mut i: usize = 0;
    proof {
        reveal_with_fuel(pow256, 9);
        assert(le_value(out@) == 0);
        assert(pow256(0) == 1);
        assert(orig as nat == le_value(out@) + pow256(0) * u);
    }
    while i < 8
        invariant
            i <= 8,
            out@.len() == i,
            orig as nat == le_value(out@) + pow256(i as nat) * u,
            pow256(8) == 0x1_0000_0000_0000_0000,
        decreases 8 - i,
    {
        let byte = (u % 256) as u8;
        proof {
            lemma_le_value_push(out@, byte);
            assert(pow256(i as nat) * u == pow256(i as nat) * (u % 256) + pow256((i + 1) as nat) * (u / 256)) by (nonlinear_arith)
                requires
                    pow256((i + 1) as nat) == 256 * pow256(i as nat),
            ;
        }
        out.push(byte);
        u = u / 256;
        i = i + 1;
    }
    proof {
        lemma_le_value_bound(out@);
        assert(u == 0) by (nonlinear_arith)
            requires
                orig as nat == le_value(out@) + pow256(8) * u,
                pow256(8) == 0x1_0000_0000_0000_0000,
                orig <= u64::MAX,
        ;
    }
    out
}

/// A balance adjustment is visible to the next read of the same key, and
/// leaves every other key alone.
pub proof fn lemma_adjust_then_read(m: Map<Seq<char>, i64>, key: Seq<char>, delta: i64, other: Seq<char>)
    requires
        m.contains_key(key),
        other != key,
    ensures
        m.insert(key, sat_add_i64(m[key], delta))[key] == sat_add_i64(m[key], delta),
        m.contains_key(other) ==> m.insert(key, sat_add_i64(m[key], delta))[other] == m[other],
{
}

} // verus!
