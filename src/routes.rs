use crate::keys::dedup;
use crate::router::RouterState;
use crate::sets::{set_items, text_set_insert, text_set_is_empty, text_set_items, text_set_new};
use crate::snapshot::{strings_view, usable_keys, RouterError};
use crate::text::{lemma_text_lt_total, lemma_text_lt_trans, text_eq, text_less, text_lt, trim_text, trimmed};
use vstd::prelude::*;

verus! {

/// One entry of a routing map: a key and the names listed under it.
pub struct RouteEntry {
    pub key: String,
    pub values: Vec<String>,
}

/// The persisted model-routing table: `upstreams` maps an upstream id to the
/// models it serves and is the source of truth; `models` is its inverse.
pub struct ModelRoutesFile {
    pub updated_at_ms: u64,
    pub models: Vec<RouteEntry>,
    pub upstreams: Vec<RouteEntry>,
}

pub open spec fn entries_view(v: Seq<RouteEntry>) -> Seq<(Seq<char>, Seq<Seq<char>>)> {
    v.map_values(|e: RouteEntry| (e.key@, strings_view(e.values@)))
}

/// Some entry of `ups` has key `id` and lists `m`.
pub open spec fn lists(ups: Seq<(Seq<char>, Seq<Seq<char>>)>, id: Seq<char>, m: Seq<char>) -> bool {
    exists|k: int| 0 <= k < ups.len() && (#[trigger] ups[k]).0 == id && ups[k].1.contains(m)
}

pub open spec fn keys_unique(v: Seq<(Seq<char>, Seq<Seq<char>>)>) -> bool {
    forall|a: int, b: int| 0 <= a < v.len() && 0 <= b < v.len() && a != b ==> (#[trigger] v[a]).0 != (#[trigger] v[b]).0
}

/// `inv` is the inverse of `ups`: one entry per listed model, holding
/// exactly the ids that list it, each once, in sorted order.
pub open spec fn is_inverse(inv: Seq<(Seq<char>, Seq<Seq<char>>)>, ups: Seq<(Seq<char>, Seq<Seq<char>>)>) -> bool {
    &&& keys_unique(inv)
    &&& forall|i: int| 0 <= i < inv.len() ==> sorted_texts((#[trigger] inv[i]).1)
    &&& forall|i: int, v: Seq<char>| 0 <= i < inv.len() && #[trigger] inv[i].1.contains(v) ==> lists(ups, v, inv[i].0)
    &&& forall|k: int, j: int| 0 <= k < ups.len() && 0 <= j < ups[k].1.len() ==> #[trigger] covered(inv, ups[k].1[j], ups[k].0)
}

/// `inv` has an entry for `m` that holds `id`.
pub open spec fn covered(inv: Seq<(Seq<char>, Seq<Seq<char>>)>, m: Seq<char>, id: Seq<char>) -> bool {
    exists|i: int| 0 <= i < inv.len() && (#[trigger] inv[i]).0 == m && inv[i].1.contains(id)
}

fn find_entry(v: &Vec<RouteEntry>, key: &str) -> (r: Option<usize>)
    ensures
        match r {
            Some(i) => i < v@.len() && v@[i as int].key@ == key@,
            None => forall|i: int| 0 <= i < v@.len() ==> (#[trigger] v@[i]).key@ != key@,
        },
{
    let mut i: usize = 0;
    while i < v.len()
        invariant
            i <= v@.len(),
            forall|j: int| 0 <= j < i ==> (#[trigger] v@[j]).key@ != key@,
        decreases v@.len() - i,
    {
        if text_eq(v[i].key.as_str(), key) {
            return Some(i);
        }
        i = i + 1;
    }
    None
}

fn contains_text(v: &Vec<String>, s: &str) -> (r: bool)
    ensures
        r == strings_view(v@).contains(s@),
{
    let mut i: usize = 0;
    while i < v.len()
        invariant
            i <= v@.len(),
            forall|j: int| 0 <= j < i ==> (#[trigger] v@[j])@ != s@,
        decreases v@.len() - i,
    {
        if text_eq(v[i].as_str(), s) {
            assert(strings_view(v@)[i as int] == s@);
            return true;
        }
        i = i + 1;
    }
    proof {
        assert forall|j: int| 0 <= j < strings_view(v@).len() implies strings_view(v@)[j] != s@ by {
            assert(strings_view(v@)[j] == v@[j]@);
        }
    }
    false
}

/// The `models` map derived from an `upstreams` map.
pub fn inverse_models(ups: &Vec<RouteEntry>) -> (r: Vec<RouteEntry>)
    ensures
        is_inverse(entries_view(r@), entries_view(ups@)),
{
    let ghost uv = entries_view(ups@);
    let mut out: Vec<RouteEntry> = Vec::new();
    let mut k: usize = 0;
    while k < ups.len()
        invariant
            uv == entries_view(ups@),
            k <= ups@.len(),
            keys_unique(entries_view(out@)),
            forall|i: int| 0 <= i < out@.len() ==> sorted_texts((#[trigger] entries_view(out@)[i]).1),
            forall|i: int, v: Seq<char>| 0 <= i < out@.len() && #[trigger] entries_view(out@)[i].1.contains(v) ==> lists(uv, v, entries_view(out@)[i].0),
            forall|k2: int, j: int| 0 <= k2 < k && 0 <= j < uv[k2].1.len() ==> #[trigger] covered(entries_view(out@), uv[k2].1[j], uv[k2].0),
        decreases ups@.len() - k,
    {
        let id = &ups[k].key;
        let n = ups[k].values.len();
        let mut j: usize = 0;
        while j < n
            invariant
                uv == entries_view(ups@),
                k < ups@.len(),
                id == ups@[k as int].key,
                n == ups@[k as int].values@.len(),
                j <= n,
                keys_unique(entries_view(out@)),
                forall|i: int| 0 <= i < out@.len() ==> sorted_texts((#[trigger] entries_view(out@)[i]).1),
                forall|i: int, v: Seq<char>| 0 <= i < out@.len() && #[trigger] entries_view(out@)[i].1.contains(v) ==> lists(uv, v, entries_view(out@)[i].0),
                forall|k2: int, j2: int| (0 <= k2 < k && 0 <= j2 < uv[k2].1.len()) || (k2 == k && 0 <= j2 < j) ==> #[trigger] covered(entries_view(out@), uv[k2].1[j2], uv[k2].0),
            decreases n - j,
        {
            let m = &ups[k].values[j];
            let ghost ov = entries_view(out@);
            assert(uv[k as int].1[j as int] == m@);
            assert(uv[k as int].0 == id@);
            assert(lists(uv, id@, m@)) by {
                assert(uv[k as int].1.contains(m@));
            }
            match find_entry(&out, m.as_str()) {
                Some(i) => {
                    if !contains_text(&out[i].values, id.as_str()) {
                        proof {
                            assert(entries_view(out@)[i as int].1 == strings_view(out@[i as int].values@));
                            assert(sorted_texts(entries_view(out@)[i as int].1));
                        }
                        insert_sorted(&mut out[i].values, id.clone());
                        proof {
                            let nv = entries_view(out@);
                            assert(nv[i as int].1.to_set() == ov[i as int].1.to_set().insert(id@));
                            assert forall|a: int| 0 <= a < nv.len() && a != i implies nv[a] == ov[a] by {}
                            assert(nv[i as int].0 == ov[i as int].0);
                            assert forall|a: int, v: Seq<char>| 0 <= a < nv.len() && #[trigger] nv[a].1.contains(v) implies lists(uv, v, nv[a].0) by {
                                if a == i {
                                    assert(nv[a].1.to_set().contains(v));
                                    if v != id@ {
                                        assert(ov[a].1.to_set().contains(v));
                                        assert(ov[a].1.contains(v));
                                    }
                                } else {
                                    assert(nv[a] == ov[a]);
                                    assert(ov[a].1.contains(v));
                                }
                            }
                            assert forall|k2: int, j2: int| (0 <= k2 < k && 0 <= j2 < uv[k2].1.len()) || (k2 == k && 0 <= j2 < j + 1) implies #[trigger] covered(nv, uv[k2].1[j2], uv[k2].0) by {
                                if k2 == k && j2 == j {
                                    assert(nv[i as int].1.to_set().contains(id@));
                                    assert(nv[i as int].0 == uv[k2].1[j2] && nv[i as int].1.contains(uv[k2].0));
                                } else {
                                    assert(covered(ov, uv[k2].1[j2], uv[k2].0));
                                    let b = choose|b: int| 0 <= b < ov.len() && (#[trigger] ov[b]).0 == uv[k2].1[j2] && ov[b].1.contains(uv[k2].0);
                                    if b == i {
                                        assert(ov[b].1.to_set().contains(uv[k2].0));
                                        assert(nv[b].1.to_set().contains(uv[k2].0));
                                    } else {
                                        assert(nv[b] == ov[b]);
                                    }
                                    assert(nv[b].0 == uv[k2].1[j2] && nv[b].1.contains(uv[k2].0));
                                }
                            }
                            assert(keys_unique(nv));
                            assert forall|a: int| 0 <= a < nv.len() implies sorted_texts((#[trigger] nv[a]).1) by {
                                if a != i {
                                    assert(nv[a] == ov[a]);
                                }
                            }
                        }
                    } else {
                        proof {
                            assert forall|k2: int, j2: int| (0 <= k2 < k && 0 <= j2 < uv[k2].1.len()) || (k2 == k && 0 <= j2 < j + 1) implies #[trigger] covered(ov, uv[k2].1[j2], uv[k2].0) by {
                                if k2 == k && j2 == j {
                                    assert(ov[i as int].0 == m@);
                                    assert(ov[i as int].1.contains(id@));
                                }
                            }
                        }
                    }
                },
                None => {
                    let mut vals: Vec<String> = Vec::new();
                    vals.push(id.clone());
                    assert(strings_view(vals@) =~= seq![id@]);
                    out.push(RouteEntry { key: m.clone(), values: vals });
                    proof {
                        let nv = entries_view(out@);
                        assert(nv =~= ov.push((m@, seq![id@])));
                        assert(nv[ov.len() as int].1 =~= seq![id@]);
                        assert forall|a: int, v: Seq<char>| 0 <= a < nv.len() && #[trigger] nv[a].1.contains(v) implies lists(uv, v, nv[a].0) by {
                            if a == ov.len() {
                                assert(nv[a].1[0] == id@);
                            } else {
                                assert(nv[a] == ov[a]);
                            }
                        }
                        assert forall|k2: int, j2: int| (0 <= k2 < k && 0 <= j2 < uv[k2].1.len()) || (k2 == k && 0 <= j2 < j + 1) implies #[trigger] covered(nv, uv[k2].1[j2], uv[k2].0) by {
                            if k2 == k && j2 == j {
                                assert(nv[ov.len() as int].1[0] == id@);
                                assert(nv[ov.len() as int].0 == uv[k2].1[j2] && nv[ov.len() as int].1.contains(uv[k2].0));
                            } else {
                                assert(covered(ov, uv[k2].1[j2], uv[k2].0));
                                let b = choose|b: int| 0 <= b < ov.len() && (#[trigger] ov[b]).0 == uv[k2].1[j2] && ov[b].1.contains(uv[k2].0);
                                assert(nv[b] == ov[b]);
                                assert(nv[b].0 == uv[k2].1[j2] && nv[b].1.contains(uv[k2].0));
                            }
                        }
                        assert forall|a: int, b: int| 0 <= a < nv.len() && 0 <= b < nv.len() && a != b implies (#[trigger] nv[a]).0 != (#[trigger] nv[b]).0 by {
                            if a < ov.len() && b < ov.len() {
                                assert(nv[a] == ov[a] && nv[b] == ov[b]);
                            } else if a < ov.len() {
                                assert(nv[a] == ov[a]);
                                assert(out@[a].key@ != m@);
                            } else {
                                assert(nv[b] == ov[b]);
                                assert(out@[b].key@ != m@);
                            }
                        }
                        assert forall|a: int| 0 <= a < nv.len() implies sorted_texts((#[trigger] nv[a]).1) by {
                            if a < ov.len() {
                                assert(nv[a] == ov[a]);
                            }
                        }
                    }
                },
            }
            j = j + 1;
        }
        k = k + 1;
    }
    out
}

/// Whether the table has an entry for the upstream.
pub fn routes_has_upstream(routes: &ModelRoutesFile, upstream_id: &str) -> (r: bool)
    ensures
        r == exists|i: int| 0 <= i < routes.upstreams@.len() && (#[trigger] routes.upstreams@[i]).key@ == upstream_id@,
{
    find_entry(&routes.upstreams, upstream_id).is_some()
}

/// Some upstream of `ups` has this id.
pub open spec fn known_id(ups: Seq<crate::router::Upstream>, id: Seq<char>) -> bool {
    exists|i: int| 0 <= i < ups.len() && (#[trigger] ups[i]).id@ == id
}

/// Names in strictly increasing code-point order (so without repeats).
pub open spec fn sorted_texts(v: Seq<Seq<char>>) -> bool {
    forall|i: int, j: int| 0 <= i < j < v.len() ==> text_lt(#[trigger] v[i], #[trigger] v[j])
}

/// `out` is the entry `input` once its models are trimmed, blanks dropped,
/// duplicates removed and the rest sorted.
pub open spec fn cleaned_as(out: (Seq<char>, Seq<Seq<char>>), input: (Seq<char>, Seq<Seq<char>>)) -> bool {
    &&& out.0 == input.0
    &&& sorted_texts(out.1)
    &&& out.1.to_set() == usable_keys(input.1).to_set()
}

fn insert_sorted(v: &mut Vec<String>, s: String)
    requires
        sorted_texts(strings_view(old(v)@)),
    ensures
        sorted_texts(strings_view(final(v)@)),
        strings_view(final(v)@).to_set() == strings_view(old(v)@).to_set().insert(s@),
{
    let ghost w = strings_view(v@);
    let n = v.len();
    let mut p: usize = 0;
    while p < n && text_less(v[p].as_str(), s.as_str())
        invariant
            n == v@.len(),
            w == strings_view(v@),
            p <= n,
            forall|q: int| 0 <= q < p ==> text_lt(#[trigger] w[q], s@),
        decreases n - p,
    {
        p = p + 1;
    }
    if p < n && text_eq(v[p].as_str(), s.as_str()) {
        proof {
            assert(w[p as int] == s@);
            assert(w.to_set().insert(s@) =~= w.to_set());
        }
        return;
    }
    v.insert(p, s);
    proof {
        let nw = strings_view(v@);
        assert(nw =~= w.insert(p as int, s@));
        if p < n {
            lemma_text_lt_total(w[p as int], s@);
        }
        assert forall|i: int, j: int| 0 <= i < j < nw.len() implies text_lt(#[trigger] nw[i], #[trigger] nw[j]) by {
            if j < p {
                assert(nw[i] == w[i] && nw[j] == w[j]);
            } else if j == p {
                assert(nw[i] == w[i]);
            } else if i < p {
                assert(nw[i] == w[i] && nw[j] == w[j - 1]);
                if j - 1 > p {
                    lemma_text_lt_trans(w[i], w[p as int], w[j - 1]);
                }
                lemma_text_lt_trans(w[i], s@, w[p as int]);
            } else if i == p {
                assert(nw[j] == w[j - 1]);
                if j - 1 > p {
                    lemma_text_lt_trans(s@, w[p as int], w[j - 1]);
                }
            } else {
                assert(nw[i] == w[i - 1] && nw[j] == w[j - 1]);
            }
        }
        assert forall|t: Seq<char>| nw.to_set().contains(t) <==> w.to_set().insert(s@).contains(t) by {
            if nw.to_set().contains(t) {
                let i = choose|i: int| 0 <= i < nw.len() && nw[i] == t;
                if i < p {
                    assert(w[i] == t);
                } else if i > p {
                    assert(w[i - 1] == t);
                }
            }
            if w.to_set().contains(t) {
                let i = choose|i: int| 0 <= i < w.len() && w[i] == t;
                if i < p {
                    assert(nw[i] == t);
                } else {
                    assert(nw[i + 1] == t);
                }
            }
            if t == s@ {
                assert(nw[p as int] == t);
            }
        }
        assert(nw.to_set() =~= w.to_set().insert(s@));
    }
}

/// A model list trimmed, blanks dropped, deduplicated and sorted.
pub fn sorted_models(list: &Vec<String>) -> (r: Vec<String>)
    ensures
        sorted_texts(strings_view(r@)),
        strings_view(r@).to_set() == usable_keys(strings_view(list@)).to_set(),
{
    let ghost ls = strings_view(list@);
    let mut out: Vec<String> = Vec::new();
    let mut i: usize = 0;
    assert(strings_view(out@).to_set() =~= usable_keys(ls.subrange(0, 0)).to_set());
    while i < list.len()
        invariant
            ls == strings_view(list@),
            i <= list@.len(),
            sorted_texts(strings_view(out@)),
            strings_view(out@).to_set() == usable_keys(ls.subrange(0, i as int)).to_set(),
        decreases list@.len() - i,
    {
        let ghost pre = usable_keys(ls.subrange(0, i as int));
        assert(ls.subrange(0, i + 1).drop_last() =~= ls.subrange(0, i as int));
        assert(ls.subrange(0, i + 1).last() == list@[i as int]@);
        let t = trim_text(list[i].as_str());
        if t.as_str().unicode_len() != 0 {
            proof {
                pre.lemma_push_to_set_commute(t@);
            }
            insert_sorted(&mut out, t);
        }
        i = i + 1;
    }
    assert(ls.subrange(0, i as int) =~= ls);
    out
}

impl RouterState {
    /// Replaces the routing table with the given `upstreams` map: every id
    /// must name a live upstream; model lists are trimmed and deduplicated;
    /// the inverse map is recomputed and stamped with `now_ms`. The returned
    /// table is what gets persisted; the live model sets follow it.
    pub fn save_model_routes(&mut self, upstreams: Vec<RouteEntry>, now_ms: u64) -> (r: Result<ModelRoutesFile, RouterError>)
        requires
            old(self).wf(),
        ensures
            final(self).wf(),
            match r {
                Ok(routes) => {
                    &&& forall|k: int| 0 <= k < upstreams@.len() ==> #[trigger] known_id(old(self).snapshot.upstreams@, upstreams@[k].key@)
                    &&& routes.upstreams@.len() == upstreams@.len()
                    &&& forall|k: int| 0 <= k < upstreams@.len() ==> cleaned_as(#[trigger] entries_view(routes.upstreams@)[k], entries_view(upstreams@)[k])
                    &&& is_inverse(entries_view(routes.models@), entries_view(routes.upstreams@))
                    &&& routes.updated_at_ms == now_ms
                },
                Err(e) => e == RouterError::UnknownUpstream && *final(self) == *old(self) && exists|k: int|
                    0 <= k < upstreams@.len() && forall|i: int| 0 <= i < old(self).snapshot.upstreams@.len()
                        ==> (#[trigger] old(self).snapshot.upstreams@[i]).id@ != (#[trigger] upstreams@[k]).key@,
            },
    {
        let mut k: usize = 0;
        while k < upstreams.len()
            invariant
                self.wf(),
                *self == *old(self),
                k <= upstreams@.len(),
                forall|k2: int| 0 <= k2 < k ==> #[trigger] known_id(old(self).snapshot.upstreams@, upstreams@[k2].key@),
            decreases upstreams@.len() - k,
        {
            match self.upstream_by_id(upstreams[k].key.as_str()) {
                Some(w) => {
                    assert(old(self).snapshot.upstreams@[w as int].id@ == upstreams@[k as int].key@);
                    assert(known_id(old(self).snapshot.upstreams@, upstreams@[k as int].key@));
                },
                None => {
                    return Err(RouterError::UnknownUpstream);
                },
            }
            k = k + 1;
        }
        assert(k == upstreams@.len());
        let ghost uv = entries_view(upstreams@);
        let mut clean: Vec<RouteEntry> = Vec::new();
        let mut idx: usize = 0;
        while idx < upstreams.len()
            invariant
                uv == entries_view(upstreams@),
                self.wf(),
                *self == *old(self),
                forall|k2: int| 0 <= k2 < upstreams@.len() ==> #[trigger] known_id(old(self).snapshot.upstreams@, upstreams@[k2].key@),
                idx <= upstreams@.len(),
                clean@.len() == idx,
                forall|k: int| 0 <= k < idx ==> cleaned_as(#[trigger] entries_view(clean@)[k], uv[k]),
            decreases upstreams@.len() - idx,
        {
            let models = sorted_models(&upstreams[idx].values);
            let ghost before = entries_view(clean@);
            clean.push(RouteEntry { key: upstreams[idx].key.clone(), values: models });
            assert(entries_view(clean@) =~= before.push(entries_view(clean@)[idx as int]));
            assert(cleaned_as(entries_view(clean@)[idx as int], uv[idx as int]));
            idx = idx + 1;
        }
        let models = inverse_models(&clean);
        let routes = ModelRoutesFile { updated_at_ms: now_ms, models, upstreams: clean };
        self.apply_routes(&routes);
        Ok(routes)
    }

    /// Sets each live upstream's model set to the models the table lists
    /// under its id (trimmed, blanks dropped); upstreams without an entry get
    /// an empty set.
    pub fn apply_routes(&mut self, routes: &ModelRoutesFile)
        requires
            old(self).wf(),
        ensures
            final(self).wf(),
            final(self).snapshot.upstreams@.len() == old(self).snapshot.upstreams@.len(),
            forall|u: int| 0 <= u < final(self).snapshot.upstreams@.len() ==> set_items(
                #[trigger] final(self).snapshot.upstreams@[u].models,
            ) == routed_models(entries_view(routes.upstreams@), old(self).snapshot.upstreams@[u].id@),
    {
        let n = self.snapshot.upstreams.len();
        let mut u: usize = 0;
        while u < n
            invariant
                self.wf(),
                n == self.snapshot.upstreams@.len(),
                n == old(self).snapshot.upstreams@.len(),
                u <= n,
                forall|a: int| 0 <= a < n ==> (#[trigger] self.snapshot.upstreams@[a]).id == old(self).snapshot.upstreams@[a].id,
                forall|a: int| 0 <= a < u ==> set_items(#[trigger] self.snapshot.upstreams@[a].models)
                    == routed_models(entries_view(routes.upstreams@), old(self).snapshot.upstreams@[a].id@),
            decreases n - u,
        {
            let set = models_for(routes, self.snapshot.upstreams[u].id.as_str());
            let ghost prev = *self;
            self.set_upstream_models(u, set);
            proof {
                assert forall|a: int| 0 <= a < u implies set_items(#[trigger] self.snapshot.upstreams@[a].models)
                    == routed_models(entries_view(routes.upstreams@), old(self).snapshot.upstreams@[a].id@) by {
                    assert(self.snapshot.upstreams@[a] == prev.snapshot.upstreams@[a]);
                }
                assert forall|a: int| 0 <= a < n implies (#[trigger] self.snapshot.upstreams@[a]).id == old(self).snapshot.upstreams@[a].id by {
                    if a != u {
                        assert(self.snapshot.upstreams@[a] == prev.snapshot.upstreams@[a]);
                    }
                }
            }
            u = u + 1;
        }
    }
}

fn copy_strings(v: &Vec<String>) -> (r: Vec<String>)
    ensures
        r@ == v@,
{
    let mut out: Vec<String> = Vec::new();
    let mut i: usize = 0;
    while i < v.len()
        invariant
            i <= v@.len(),
            out@ == v@.subrange(0, i as int),
        decreases v@.len() - i,
    {
        out.push(v[i].clone());
        i = i + 1;
        assert(out@ =~= v@.subrange(0, i as int));
    }
    assert(out@ =~= v@);
    out
}

/// The entries of `ups` whose key passes `keep`, in order.
pub open spec fn kept_entries(
    ups: Seq<(Seq<char>, Seq<Seq<char>>)>,
    live: Set<Seq<char>>,
) -> Seq<(Seq<char>, Seq<Seq<char>>)> {
    ups.filter(|e: (Seq<char>, Seq<Seq<char>>)| live.contains(e.0))
}

pub open spec fn live_ids(s: &RouterState) -> Set<Seq<char>> {
    Set::new(|id: Seq<char>| exists|i: int| 0 <= i < s.snapshot.upstreams@.len() && (#[trigger] s.snapshot.upstreams@[i]).id@ == id)
}

impl RouterState {
    /// `e` lists, without repeats, the non-empty model set of a live upstream
    /// under that upstream's id.
    pub open spec fn describes_live(&self, e: RouteEntry) -> bool {
        exists|u: int|
            0 <= u < self.snapshot.upstreams@.len() && e.key@ == (#[trigger] self.snapshot.upstreams@[u]).id@
                && strings_view(e.values@).to_set() == set_items(self.snapshot.upstreams@[u].models)
                && strings_view(e.values@).no_duplicates() && !set_items(self.snapshot.upstreams@[u].models).is_empty()
    }

    /// The routing table as the live model sets describe it: one entry per
    /// upstream with a non-empty model set, and its inverse.
    pub fn build_model_routes(&self, now_ms: u64) -> (r: ModelRoutesFile)
        ensures
            r.updated_at_ms == now_ms,
            is_inverse(entries_view(r.models@), entries_view(r.upstreams@)),
            forall|i: int| 0 <= i < r.upstreams@.len() ==> self.describes_live(#[trigger] r.upstreams@[i]),
            forall|u: int| 0 <= u < self.snapshot.upstreams@.len() && !set_items(#[trigger] self.snapshot.upstreams@[u].models).is_empty()
                ==> exists|i: int| 0 <= i < r.upstreams@.len() && (#[trigger] r.upstreams@[i]).key@ == self.snapshot.upstreams@[u].id@,
    {
        let mut entries: Vec<RouteEntry> = Vec::new();
        let n = self.snapshot.upstreams.len();
        let mut u: usize = 0;
        while u < n
            invariant
                n == self.snapshot.upstreams@.len(),
                u <= n,
                forall|i: int| 0 <= i < entries@.len() ==> self.describes_live(#[trigger] entries@[i]),
                forall|w: int| 0 <= w < u && !set_items(#[trigger] self.snapshot.upstreams@[w].models).is_empty()
                    ==> exists|i: int| 0 <= i < entries@.len() && (#[trigger] entries@[i]).key@ == self.snapshot.upstreams@[w].id@,
            decreases n - u,
        {
            let up = &self.snapshot.upstreams[u];
            if !text_set_is_empty(&up.models) {
                let values = text_set_items(&up.models);
                let ghost before = entries@;
                proof {
                    assert(strings_view(values@) =~= values@.map_values(|x: String| x@));
                    if set_items(up.models).is_empty() {
                        assert(set_items(up.models) =~= Set::<Seq<char>>::empty());
                    }
                }
                entries.push(RouteEntry { key: up.id.clone(), values });
                proof {
                    assert forall|i: int| 0 <= i < entries@.len() implies self.describes_live(#[trigger] entries@[i]) by {
                        if i < before.len() {
                            assert(entries@[i] == before[i]);
                        } else {
                            assert(entries@[i].key@ == self.snapshot.upstreams@[u as int].id@);
                            assert(strings_view(entries@[i].values@).to_set() == set_items(self.snapshot.upstreams@[u as int].models));
                        }
                    }
                    assert forall|w: int| 0 <= w < u + 1 && !set_items(#[trigger] self.snapshot.upstreams@[w].models).is_empty()
                        implies exists|i: int| 0 <= i < entries@.len() && (#[trigger] entries@[i]).key@ == self.snapshot.upstreams@[w].id@ by {
                        if w < u {
                            let i = choose|i: int| 0 <= i < before.len() && (#[trigger] before[i]).key@ == self.snapshot.upstreams@[w].id@;
                            assert(entries@[i] == before[i]);
                        } else {
                            assert(entries@[before.len() as int].key@ == self.snapshot.upstreams@[w].id@);
                        }
                    }
                }
            } else {
                proof {
                    assert(set_items(up.models) =~= Set::<Seq<char>>::empty());
                }
            }
            u = u + 1;
        }
        let ghost ev = entries@;
        let models = inverse_models(&entries);
        let r = ModelRoutesFile { updated_at_ms: now_ms, models, upstreams: entries };
        assert(r.upstreams@ == ev);
        r
    }

    /// Drops from a stored table the entries of upstreams that no longer
    /// exist; `None` when every entry is still live, else the pruned table
    /// with its inverse recomputed and stamped with `now_ms`.
    pub fn cleanup_routes(&self, routes: &ModelRoutesFile, now_ms: u64) -> (r: Option<ModelRoutesFile>)
        ensures
            match r {
                None => kept_entries(entries_view(routes.upstreams@), live_ids(self)) == entries_view(routes.upstreams@),
                Some(t) => {
                    &&& entries_view(t.upstreams@) == kept_entries(entries_view(routes.upstreams@), live_ids(self))
                    &&& is_inverse(entries_view(t.models@), entries_view(t.upstreams@))
                    &&& t.updated_at_ms == now_ms
                },
            },
    {
        let ghost uv = entries_view(routes.upstreams@);
        let ghost live = live_ids(self);
        let mut kept: Vec<RouteEntry> = Vec::new();
        let mut changed = false;
        let mut i: usize = 0;
        while i < routes.upstreams.len()
            invariant
                uv == entries_view(routes.upstreams@),
                live == live_ids(self),
                i <= uv.len(),
                entries_view(kept@) == kept_entries(uv.subrange(0, i as int), live),
                !changed ==> kept_entries(uv.subrange(0, i as int), live) == uv.subrange(0, i as int),
            decreases uv.len() - i,
        {
            let e = &routes.upstreams[i];
            let ghost pre = uv.subrange(0, i as int);
            assert(uv.subrange(0, i + 1) =~= pre.push(uv[i as int]));
            proof {
                pre.lemma_filter_push(uv[i as int], |x: (Seq<char>, Seq<Seq<char>>)| live.contains(x.0));
            }
            match self.upstream_by_id(e.key.as_str()) {
                Some(_) => {
                    assert(live.contains(e.key@));
                    let ghost before = entries_view(kept@);
                    kept.push(RouteEntry { key: e.key.clone(), values: copy_strings(&e.values) });
                    assert(entries_view(kept@) =~= before.push(uv[i as int]));
                },
                None => {
                    assert(!live.contains(e.key@));
                    changed = true;
                },
            }
            i = i + 1;
        }
        assert(uv.subrange(0, i as int) =~= uv);
        if !changed {
            return None;
        }
        let models = inverse_models(&kept);
        Some(ModelRoutesFile { updated_at_ms: now_ms, models, upstreams: kept })
    }
}

/// The models the table routes to upstream `id`: every trimmed, non-blank
/// model listed under an entry with that key.
pub open spec fn routed_models(ups: Seq<(Seq<char>, Seq<Seq<char>>)>, id: Seq<char>) -> Set<Seq<char>> {
    Set::new(|m: Seq<char>| exists|k: int, j: int| 0 <= k < ups.len() && 0 <= j < ups[k].1.len() && (#[trigger] ups[k]).0 == id
        && trimmed(#[trigger] ups[k].1[j]) == m && m.len() > 0)
}

fn models_for(routes: &ModelRoutesFile, id: &str) -> (r: ahash::AHashSet<String>)
    ensures
        set_items(r) == routed_models(entries_view(routes.upstreams@), id@),
{
    let ghost uv = entries_view(routes.upstreams@);
    let mut set = text_set_new();
    let mut k: usize = 0;
    while k < routes.upstreams.len()
        invariant
            uv == entries_view(routes.upstreams@),
            k <= uv.len(),
            set_items(set) == Set::new(|m: Seq<char>| exists|k2: int, j: int| 0 <= k2 < k && 0 <= j < uv[k2].1.len() && (#[trigger] uv[k2]).0 == id@
                && trimmed(#[trigger] uv[k2].1[j]) == m && m.len() > 0),
        decreases uv.len() - k,
    {
        if text_eq(routes.upstreams[k].key.as_str(), id) {
            let vals = &routes.upstreams[k].values;
            let mut j: usize = 0;
            while j < vals.len()
                invariant
                    uv == entries_view(routes.upstreams@),
                    k < uv.len(),
                    vals == routes.upstreams@[k as int].values,
                    uv[k as int].0 == id@,
                    j <= vals@.len(),
                    set_items(set) == Set::new(|m: Seq<char>| exists|k2: int, j2: int|
                        ((0 <= k2 < k && 0 <= j2 < uv[k2].1.len()) || (k2 == k && 0 <= j2 < j)) && (#[trigger] uv[k2]).0 == id@
                        && trimmed(#[trigger] uv[k2].1[j2]) == m && m.len() > 0),
                decreases vals@.len() - j,
            {
                let t = trim_text(vals[j].as_str());
                let ghost before = set_items(set);
                assert(uv[k as int].1[j as int] == vals@[j as int]@);
                if t.as_str().unicode_len() != 0 {
                    text_set_insert(&mut set, t);
                }
                j = j + 1;
                proof {
                    let target = Set::new(|m: Seq<char>| exists|k2: int, j2: int|
                        ((0 <= k2 < k && 0 <= j2 < uv[k2].1.len()) || (k2 == k && 0 <= j2 < j)) && (#[trigger] uv[k2]).0 == id@
                        && trimmed(#[trigger] uv[k2].1[j2]) == m && m.len() > 0);
                    assert(set_items(set) =~= target) by {
                        assert forall|m: Seq<char>| target.contains(m) implies set_items(set).contains(m) by {
                            let (k2, j2) = choose|k2: int, j2: int|
                                ((0 <= k2 < k && 0 <= j2 < uv[k2].1.len()) || (k2 == k && 0 <= j2 < j)) && (#[trigger] uv[k2]).0 == id@
                                && trimmed(#[trigger] uv[k2].1[j2]) == m && m.len() > 0;
                            if !(k2 == k && j2 == j - 1) {
                                assert(before.contains(m));
                            }
                        }
                    }
                }
            }
        } else {
            proof {
                assert(uv[k as int].0 != id@);
            }
        }
        k = k + 1;
        proof {
            let target = Set::new(|m: Seq<char>| exists|k2: int, j: int| 0 <= k2 < k && 0 <= j < uv[k2].1.len() && (#[trigger] uv[k2]).0 == id@
                && trimmed(#[trigger] uv[k2].1[j]) == m && m.len() > 0);
            assert(set_items(set) =~= target) by {
                assert forall|m: Seq<char>| target.contains(m) == set_items(set).contains(m) by {
                    if target.contains(m) {
                        let (k2, j2) = choose|k2: int, j: int| 0 <= k2 < k && 0 <= j < uv[k2].1.len() && (#[trigger] uv[k2]).0 == id@
                            && trimmed(#[trigger] uv[k2].1[j]) == m && m.len() > 0;
                        assert(set_items(set).contains(m));
                    }
                }
            }
        }
    }
    proof {
        assert(set_items(set) =~= routed_models(uv, id@));
    }
    set
}

} // verus!
