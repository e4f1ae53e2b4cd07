use crate::billing::{decode_spec, encode_balance, BillingStore};
use crate::keys::utf8_text;
use vstd::prelude::*;
use vstd::utf8::{decode_utf8, encode_utf8, valid_utf8};

verus! {

#[verifier::external_type_specification]
#[verifier::external_body]
pub struct ExSledDb(sled::Db);

#[verifier::external_type_specification]
#[verifier::external_body]
pub struct ExSledTree(sled::Tree);

#[verifier::external_type_specification]
#[verifier::external_body]
pub struct ExSledError(sled::Error);

/// Why the credential store failed.
#[derive(Debug)]
pub enum StoreError {
    /// The embedded database reported an error.
    Backend(sled::Error),
    /// A stored credential is not valid UTF-8.
    InvalidUtf8,
}

/// What the named tree of a database holds, key to value.
pub uninterp spec fn tree_contents(db: sled::Db, tree: Seq<u8>) -> Map<Seq<u8>, Seq<u8>>;

/// Every tree but `tree` holds what it held.
pub open spec fn other_trees_kept(a: sled::Db, b: sled::Db, tree: Seq<u8>) -> bool {
    forall|t: Seq<u8>| t != tree ==> #[trigger] tree_contents(a, t) == tree_contents(b, t)
}

/// Relies on `sled::Db::open_tree` and `sled::Tree::insert`: the key now
/// maps to the value; `Ok(true)` when it was present before.
#[verifier::external_body]
fn db_insert(db: &mut sled::Db, tree: &[u8], key: &[u8], value: &[u8]) -> (r: Result<bool, sled::Error>)
    ensures
        r matches Ok(b) ==> b == tree_contents(*old(db), tree@).contains_key(key@)
            && tree_contents(*final(db), tree@) == tree_contents(*old(db), tree@).insert(key@, value@)
            && other_trees_kept(*final(db), *old(db), tree@),
{
    db.open_tree(tree)?.insert(key, value).map(|prev| prev.is_some())
}

/// Relies on `sled::Db::open_tree` and `sled::Tree::remove`: `Ok(true)` when
/// the key was present.
#[verifier::external_body]
fn db_remove(db: &mut sled::Db, tree: &[u8], key: &[u8]) -> (r: Result<bool, sled::Error>)
    ensures
        r matches Ok(b) ==> b == tree_contents(*old(db), tree@).contains_key(key@)
            && tree_contents(*final(db), tree@) == tree_contents(*old(db), tree@).remove(key@)
            && other_trees_kept(*final(db), *old(db), tree@),
{
    db.open_tree(tree)?.remove(key).map(|prev| prev.is_some())
}

/// Relies on `sled::Db::open_tree` and `sled::Tree::clear`, which removes
/// every key.
#[verifier::external_body]
fn db_clear(db: &mut sled::Db, tree: &[u8]) -> (r: Result<(), sled::Error>)
    ensures
        r is Ok ==> tree_contents(*final(db), tree@).dom() == Set::<Seq<u8>>::empty()
            && other_trees_kept(*final(db), *old(db), tree@),
{
    db.open_tree(tree)?.clear()
}

/// Relies on `sled::Db::open_tree` and `sled::Tree::iter`: every stored
/// pair once, in key order.
#[verifier::external_body]
fn db_entries(db: &sled::Db, tree: &[u8]) -> (r: Result<Vec<(Vec<u8>, Vec<u8>)>, sled::Error>)
    ensures
        r matches Ok(v) ==> pairs_are(v@, tree_contents(*db, tree@)),
{
    db.open_tree(tree)?.iter().map(|item| item.map(|(k, v)| (k.to_vec(), v.to_vec()))).collect()
}

/// Relies on `sled::Db::tree_names`: the names of the trees.
#[verifier::external_body]
fn db_tree_names(db: &sled::Db) -> (r: Vec<Vec<u8>>) {
    db.tree_names().into_iter().map(|n| n.to_vec()).collect()
}

/// Relies on `sled::Tree::flush` (reached through `Db`'s `Deref`): writes
/// what is buffered to disk; what the trees hold does not change.
#[verifier::external_body]
fn db_flush(db: &mut sled::Db) -> (r: Result<usize, sled::Error>)
    ensures
        forall|t: Seq<u8>| #[trigger] tree_contents(*final(db), t) == tree_contents(*old(db), t),
{
    db.flush()
}

/// `v` lists the pairs of `m`, each key once.
pub open spec fn pairs_are(v: Seq<(Vec<u8>, Vec<u8>)>, m: Map<Seq<u8>, Seq<u8>>) -> bool {
    &&& forall|i: int, j: int| 0 <= i < j < v.len() ==> (#[trigger] v[i]).0@ != (#[trigger] v[j]).0@
    &&& forall|i: int| 0 <= i < v.len() ==> m.contains_key((#[trigger] v[i]).0@) && m[v[i].0@] == v[i].1@
    &&& forall|k: Seq<u8>| #[trigger] m.contains_key(k) ==> exists|i: int| 0 <= i < v.len() && (#[trigger] v[i]).0@ == k
}

/// What `String::from_utf8_lossy` makes of some bytes.
pub uninterp spec fn lossy_text_of(b: Seq<u8>) -> Seq<char>;

/// Relies on `String::from_utf8_lossy`: invalid sequences become U+FFFD;
/// valid UTF-8 is decoded unchanged.
#[verifier::external_body]
fn lossy_text(b: &[u8]) -> (r: String)
    ensures
        r@ == lossy_text_of(b@),
        valid_utf8(b@) ==> r@ == decode_utf8(b@),
{
    String::from_utf8_lossy(b).to_string()
}

/// Counts of an insertion of credentials.
pub struct AddKeysResult {
    pub inserted: usize,
    pub existed: usize,
    /// Keys that were newly inserted (not previously present).
    pub inserted_keys: Vec<String>,
}

/// Durable per-upstream credential sets and the billing tree.
pub struct KeyStore {
    db: sled::Db,
}

/// The tree of an upstream's credentials.
pub open spec fn tree_of(upstream_id: Seq<char>) -> Seq<u8> {
    encode_utf8("u:"@ + upstream_id)
}

pub open spec fn billing_tree() -> Seq<u8> {
    encode_utf8("billing"@)
}

pub open spec fn enc_all(ks: Seq<String>) -> Seq<Seq<u8>> {
    ks.map_values(|k: String| encode_utf8(k@))
}

/// The keys of `ks` that are not in `stored` and not earlier in `ks`, in order.
pub open spec fn added_keys(stored: Set<Seq<u8>>, ks: Seq<String>) -> Seq<String>
    decreases ks.len(),
{
    if ks.len() == 0 {
        Seq::empty()
    } else {
        let before = stored.union(enc_all(ks.drop_last()).to_set());
        if before.contains(encode_utf8(ks.last()@)) {
            added_keys(stored, ks.drop_last())
        } else {
            added_keys(stored, ks.drop_last()).push(ks.last())
        }
    }
}

/// How many of `ks` were present when their turn came to be removed.
pub open spec fn removed_count(stored: Set<Seq<u8>>, ks: Seq<String>) -> nat
    decreases ks.len(),
{
    if ks.len() == 0 {
        0
    } else {
        let left = stored.difference(enc_all(ks.drop_last()).to_set());
        removed_count(stored, ks.drop_last()) + if left.contains(encode_utf8(ks.last()@)) { 1nat } else { 0nat }
    }
}

/// Adding keys that are all stored already inserts none.
pub proof fn lemma_add_again_inserts_nothing(stored: Set<Seq<u8>>, ks: Seq<String>)
    requires
        forall|i: int| 0 <= i < ks.len() ==> stored.contains(encode_utf8((#[trigger] ks[i])@)),
    ensures
        added_keys(stored, ks).len() == 0,
    decreases ks.len(),
{
    if ks.len() > 0 {
        assert(stored.contains(encode_utf8(ks[ks.len() - 1]@)));
        lemma_add_again_inserts_nothing(stored, ks.drop_last());
    }
}

/// After storing `ks`, loading gives back exactly their texts.
pub proof fn lemma_stored_text_round_trip(ks: Seq<String>, loaded: Seq<Seq<char>>, stored: Set<Seq<u8>>)
    requires
        stored == enc_all(ks).to_set(),
        forall|j: int| 0 <= j < loaded.len() ==> stored.contains(encode_utf8(#[trigger] loaded[j])),
        forall|b: Seq<u8>| #[trigger] stored.contains(b) ==> exists|j: int| 0 <= j < loaded.len() && encode_utf8(#[trigger] loaded[j]) == b,
    ensures
        loaded.to_set() == ks.map_values(|k: String| k@).to_set(),
{
    broadcast use vstd::utf8::encode_utf8_decode_utf8;
    let want = ks.map_values(|k: String| k@);
    assert forall|t: Seq<char>| loaded.to_set().contains(t) <==> want.to_set().contains(t) by {
        if loaded.to_set().contains(t) {
            let j = choose|j: int| 0 <= j < loaded.len() && loaded[j] == t;
            assert(stored.contains(encode_utf8(loaded[j])));
            let i = choose|i: int| 0 <= i < enc_all(ks).len() && enc_all(ks)[i] == encode_utf8(t);
            assert(decode_utf8(encode_utf8(ks[i]@)) == decode_utf8(encode_utf8(t)));
            assert(want[i] == t);
        }
        if want.to_set().contains(t) {
            let i = choose|i: int| 0 <= i < want.len() && want[i] == t;
            assert(enc_all(ks)[i] == encode_utf8(t));
            assert(stored.contains(encode_utf8(t)));
            let j = choose|j: int| 0 <= j < loaded.len() && encode_utf8(#[trigger] loaded[j]) == encode_utf8(t);
            assert(decode_utf8(encode_utf8(loaded[j])) == decode_utf8(encode_utf8(t)));
        }
    }
    assert(loaded.to_set() =~= want.to_set());
}

/// Decodes stored credentials; `None` when one is not valid UTF-8.
pub fn keys_from_entries(entries: &Vec<(Vec<u8>, Vec<u8>)>) -> (r: Option<Vec<String>>)
    ensures
        match r {
            Some(v) => v@.len() == entries@.len() && (forall|j: int| 0 <= j < v@.len() ==> valid_utf8((#[trigger] entries@[j]).0@))
                && forall|j: int| 0 <= j < v@.len() ==> (#[trigger] v@[j])@ == decode_utf8(entries@[j].0@),
            None => exists|j: int| 0 <= j < entries@.len() && !valid_utf8((#[trigger] entries@[j]).0@),
        },
{
    let mut out: Vec<String> = Vec::new();
    let mut i: usize = 0;
    while i < entries.len()
        invariant
            i <= entries@.len(),
            out@.len() == i,
            forall|j: int| 0 <= j < i ==> valid_utf8((#[trigger] entries@[j]).0@),
            forall|j: int| 0 <= j < i ==> (#[trigger] out@[j])@ == decode_utf8(entries@[j].0@),
        decreases entries@.len() - i,
    {
        let ghost before = out@;
        let bytes = entries[i].0.as_slice();
        assert(bytes@ == entries@[i as int].0@);
        match utf8_text(bytes) {
            Some(s) => {
                out.push(s);
                assert(out@[i as int]@ == decode_utf8(entries@[i as int].0@));
                assert forall|j: int| 0 <= j < i + 1 implies (#[trigger] out@[j])@ == decode_utf8(entries@[j].0@) by {
                    if j < i {
                        assert(out@[j] == before[j]);
                    }
                }
            },
            None => return None,
        }
        i = i + 1;
    }
    Some(out)
}

impl KeyStore {
    pub closed spec fn contents(&self, tree: Seq<u8>) -> Map<Seq<u8>, Seq<u8>> {
        tree_contents(self.db, tree)
    }

    /// The stored credentials of an upstream, as bytes.
    pub open spec fn key_set(&self, upstream_id: Seq<char>) -> Set<Seq<u8>> {
        self.contents(tree_of(upstream_id)).dom()
    }

    pub open spec fn others_kept(&self, old_store: &KeyStore, tree: Seq<u8>) -> bool {
        forall|t: Seq<u8>| t != tree ==> #[trigger] self.contents(t) == old_store.contents(t)
    }

    pub fn from_db(db: sled::Db) -> (r: KeyStore) {
        KeyStore { db }
    }

    fn tree_name(upstream_id: &str) -> (r: Vec<u8>)
        ensures
            r@ == tree_of(upstream_id@),
    {
        let mut name = "u:".to_owned();
        name.append(upstream_id);
        slice_to_vec_u8(name.as_str().as_bytes())
    }

    /// Number of stored credentials of the upstream.
    pub fn count_keys(&self, upstream_id: &str) -> (r: Result<usize, StoreError>)
        ensures
            r matches Ok(n) ==> n == self.key_set(upstream_id@).len(),
    {
        let name = KeyStore::tree_name(upstream_id);
        match db_entries(&self.db, name.as_slice()) {
            Ok(e) => {
                proof {
                    lemma_pairs_len(e@, self.contents(tree_of(upstream_id@)));
                }
                Ok(e.len())
            },
            Err(e) => Err(StoreError::Backend(e)),
        }
    }

    /// Stores credentials; those already present count as `existed`, and
    /// `inserted_keys` lists the others in order. Flushes before returning.
    pub fn add_keys(&mut self, upstream_id: &str, keys: &Vec<String>) -> (r: Result<AddKeysResult, StoreError>)
        ensures
            r matches Ok(res) ==> {
                &&& res.inserted_keys@ == added_keys(old(self).key_set(upstream_id@), keys@)
                &&& res.inserted == res.inserted_keys@.len()
                &&& res.inserted + res.existed == keys@.len()
                &&& final(self).key_set(upstream_id@) == old(self).key_set(upstream_id@).union(enc_all(keys@).to_set())
                &&& final(self).others_kept(old(self), tree_of(upstream_id@))
            },
    {
        let name = KeyStore::tree_name(upstream_id);
        let ghost tree = tree_of(upstream_id@);
        let ghost s0 = old(self).key_set(upstream_id@);
        let mut inserted: usize = 0;
        let mut existed: usize = 0;
        let mut inserted_keys: Vec<String> = Vec::new();
        let empty: Vec<u8> = Vec::new();
        let mut i: usize = 0;
        while i < keys.len()
            invariant
                i <= keys@.len(),
                name@ == tree,
                tree == tree_of(upstream_id@),
                s0 == old(self).key_set(upstream_id@),
                inserted + existed == i,
                inserted_keys@.len() == inserted,
                inserted_keys@ == added_keys(s0, keys@.subrange(0, i as int)),
                self.key_set(upstream_id@) == s0.union(enc_all(keys@.subrange(0, i as int)).to_set()),
                self.others_kept(old(self), tree),
            decreases keys@.len() - i,
        {
            let ghost pre = keys@.subrange(0, i as int);
            assert(keys@.subrange(0, i + 1).drop_last() =~= pre);
            assert(enc_all(keys@.subrange(0, i + 1)) =~= enc_all(pre).push(encode_utf8(keys@[i as int]@)));
            proof {
                enc_all(pre).lemma_push_to_set_commute(encode_utf8(keys@[i as int]@));
            }
            let ghost prior = *self;
            let was_there = match db_insert(&mut self.db, name.as_slice(), keys[i].as_str().as_bytes(), empty.as_slice()) {
                Ok(b) => b,
                Err(e) => return Err(StoreError::Backend(e)),
            };
            proof {
                assert forall|t: Seq<u8>| t != tree implies #[trigger] self.contents(t) == old(self).contents(t) by {
                    assert(tree_contents(self.db, t) == tree_contents(prior.db, t));
                    assert(prior.contents(t) == old(self).contents(t));
                }
            }
            assert(self.key_set(upstream_id@) =~= s0.union(enc_all(keys@.subrange(0, i + 1)).to_set()));
            proof {
                assert(prior.key_set(upstream_id@) == s0.union(enc_all(pre).to_set()));
                assert(was_there == s0.union(enc_all(pre).to_set()).contains(encode_utf8(keys@[i as int]@)));
                assert(keys@.subrange(0, i + 1).last() == keys@[i as int]);
            }
            if was_there {
                existed = existed + 1;
            } else {
                inserted = inserted + 1;
                inserted_keys.push(keys[i].clone());
            }
            i = i + 1;
        }
        assert(keys@.subrange(0, i as int) =~= keys@);
        let ghost pre_flush = *self;
        match db_flush(&mut self.db) {
            Ok(_) => {},
            Err(e) => return Err(StoreError::Backend(e)),
        }
        proof {
            lemma_flush_keeps(&pre_flush, self, old(self), tree);
        }
        Ok(AddKeysResult { inserted, existed, inserted_keys })
    }

    /// Replaces all credentials of the upstream with `keys`.
    pub fn replace_keys(&mut self, upstream_id: &str, keys: &Vec<String>) -> (r: Result<(), StoreError>)
        ensures
            r is Ok ==> final(self).key_set(upstream_id@) == enc_all(keys@).to_set()
                && final(self).others_kept(old(self), tree_of(upstream_id@)),
    {
        let name = KeyStore::tree_name(upstream_id);
        let ghost tree = tree_of(upstream_id@);
        match db_clear(&mut self.db, name.as_slice()) {
            Ok(()) => {},
            Err(e) => return Err(StoreError::Backend(e)),
        }
        proof {
            assert forall|t: Seq<u8>| t != tree implies #[trigger] self.contents(t) == old(self).contents(t) by {
                assert(tree_contents(self.db, t) == tree_contents(old(self).db, t));
            }
        }
        assert(self.key_set(upstream_id@) =~= enc_all(keys@.subrange(0, 0)).to_set());
        let empty: Vec<u8> = Vec::new();
        let mut i: usize = 0;
        while i < keys.len()
            invariant
                i <= keys@.len(),
                name@ == tree,
                tree == tree_of(upstream_id@),
                self.key_set(upstream_id@) == enc_all(keys@.subrange(0, i as int)).to_set(),
                self.others_kept(old(self), tree),
            decreases keys@.len() - i,
        {
            let ghost pre = keys@.subrange(0, i as int);
            assert(enc_all(keys@.subrange(0, i + 1)) =~= enc_all(pre).push(encode_utf8(keys@[i as int]@)));
            proof {
                enc_all(pre).lemma_push_to_set_commute(encode_utf8(keys@[i as int]@));
            }
            let ghost prior = *self;
            match db_insert(&mut self.db, name.as_slice(), keys[i].as_str().as_bytes(), empty.as_slice()) {
                Ok(_) => {},
                Err(e) => return Err(StoreError::Backend(e)),
            }
            proof {
                assert forall|t: Seq<u8>| t != tree implies #[trigger] self.contents(t) == old(self).contents(t) by {
                    assert(tree_contents(self.db, t) == tree_contents(prior.db, t));
                    assert(prior.contents(t) == old(self).contents(t));
                }
            }
            assert(self.key_set(upstream_id@) =~= enc_all(keys@.subrange(0, i + 1)).to_set());
            i = i + 1;
        }
        assert(keys@.subrange(0, i as int) =~= keys@);
        let ghost pre_flush = *self;
        let flushed = db_flush(&mut self.db);
        proof {
            lemma_flush_keeps(&pre_flush, self, old(self), tree);
        }
        match flushed {
            Ok(_) => Ok(()),
            Err(e) => Err(StoreError::Backend(e)),
        }
    }

    /// Removes credentials; returns how many were present.
    pub fn delete_keys(&mut self, upstream_id: &str, keys: &Vec<String>) -> (r: Result<usize, StoreError>)
        ensures
            r matches Ok(n) ==> n == removed_count(old(self).key_set(upstream_id@), keys@)
                && final(self).key_set(upstream_id@) == old(self).key_set(upstream_id@).difference(enc_all(keys@).to_set())
                && final(self).others_kept(old(self), tree_of(upstream_id@)),
    {
        let name = KeyStore::tree_name(upstream_id);
        let ghost tree = tree_of(upstream_id@);
        let ghost s0 = old(self).key_set(upstream_id@);
        let mut removed: usize = 0;
        let mut i: usize = 0;
        assert(s0 =~= s0.difference(enc_all(keys@.subrange(0, 0)).to_set()));
        while i < keys.len()
            invariant
                i <= keys@.len(),
                name@ == tree,
                tree == tree_of(upstream_id@),
                s0 == old(self).key_set(upstream_id@),
                removed <= i,
                removed == removed_count(s0, keys@.subrange(0, i as int)),
                self.key_set(upstream_id@) == s0.difference(enc_all(keys@.subrange(0, i as int)).to_set()),
                self.others_kept(old(self), tree),
            decreases keys@.len() - i,
        {
            let ghost pre = keys@.subrange(0, i as int);
            assert(keys@.subrange(0, i + 1).drop_last() =~= pre);
            assert(enc_all(keys@.subrange(0, i + 1)) =~= enc_all(pre).push(encode_utf8(keys@[i as int]@)));
            proof {
                enc_all(pre).lemma_push_to_set_commute(encode_utf8(keys@[i as int]@));
            }
            let ghost prior = *self;
            match db_remove(&mut self.db, name.as_slice(), keys[i].as_str().as_bytes()) {
                Ok(true) => {
                    removed = removed + 1;
                },
                Ok(false) => {},
                Err(e) => return Err(StoreError::Backend(e)),
            }
            proof {
                assert forall|t: Seq<u8>| t != tree implies #[trigger] self.contents(t) == old(self).contents(t) by {
                    assert(tree_contents(self.db, t) == tree_contents(prior.db, t));
                    assert(prior.contents(t) == old(self).contents(t));
                }
            }
            assert(self.key_set(upstream_id@) =~= s0.difference(enc_all(keys@.subrange(0, i + 1)).to_set()));
            assert(keys@.subrange(0, i + 1).last() == keys@[i as int]);
            i = i + 1;
        }
        assert(keys@.subrange(0, i as int) =~= keys@);
        let ghost pre_flush = *self;
        let flushed = db_flush(&mut self.db);
        proof {
            lemma_flush_keeps(&pre_flush, self, old(self), tree);
        }
        match flushed {
            Ok(_) => Ok(removed),
            Err(e) => Err(StoreError::Backend(e)),
        }
    }

    /// All credentials of the upstream, in key order; refused when one is
    /// not valid UTF-8.
    pub fn load_all_keys(&self, upstream_id: &str) -> (r: Result<Vec<String>, StoreError>)
        ensures
            r matches Ok(v) ==> v@.len() == self.key_set(upstream_id@).len()
                && (forall|j: int| 0 <= j < v@.len() ==> self.key_set(upstream_id@).contains(encode_utf8((#[trigger] v@[j])@)))
                && (forall|b: Seq<u8>| #[trigger] self.key_set(upstream_id@).contains(b) ==> exists|j: int|
                    0 <= j < v@.len() && encode_utf8((#[trigger] v@[j])@) == b),
    {
        let name = KeyStore::tree_name(upstream_id);
        let entries = match db_entries(&self.db, name.as_slice()) {
            Ok(e) => e,
            Err(e) => return Err(StoreError::Backend(e)),
        };
        match keys_from_entries(&entries) {
            Some(v) => {
                proof {
                    broadcast use vstd::utf8::decode_utf8_encode_utf8;
                    let m = self.contents(tree_of(upstream_id@));
                    lemma_pairs_len(entries@, m);
                    assert forall|j: int| 0 <= j < v@.len() implies self.key_set(upstream_id@).contains(encode_utf8((#[trigger] v@[j])@)) by {
                        assert(valid_utf8(entries@[j].0@));
                        assert(encode_utf8(decode_utf8(entries@[j].0@)) == entries@[j].0@);
                    }
                    assert forall|b: Seq<u8>| #[trigger] self.key_set(upstream_id@).contains(b) implies exists|j: int|
                        0 <= j < v@.len() && encode_utf8((#[trigger] v@[j])@) == b by {
                        assert(m.contains_key(b));
                        let j = choose|j: int| 0 <= j < entries@.len() && (#[trigger] entries@[j]).0@ == b;
                        assert(valid_utf8(entries@[j].0@));
                        assert(encode_utf8(decode_utf8(entries@[j].0@)) == entries@[j].0@);
                        assert(encode_utf8(v@[j]@) == b);
                    }
                }
                Ok(v)
            },
            None => Err(StoreError::InvalidUtf8),
        }
    }

    /// Every upstream's credentials, by upstream id, for a backup.
    pub fn export_entries(&self) -> (r: Result<Vec<(String, Vec<String>)>, StoreError>)
    {
        let names = db_tree_names(&self.db);
        let mut out: Vec<(String, Vec<String>)> = Vec::new();
        let mut i: usize = 0;
        while i < names.len()
            invariant
                i <= names@.len(),
            decreases names@.len() - i,
        {
            let name = &names[i];
            if name.len() >= 2 && name[0] == 117 && name[1] == 58 {
                let mut id_bytes: Vec<u8> = Vec::new();
                let mut k: usize = 2;
                while k < name.len()
                    invariant
                        2 <= k <= name@.len(),
                        id_bytes@ == name@.subrange(2, k as int),
                    decreases name@.len() - k,
                {
                    id_bytes.push(name[k]);
                    k = k + 1;
                    assert(id_bytes@ =~= name@.subrange(2, k as int));
                }
                if let Some(id) = utf8_text(id_bytes.as_slice()) {
                    let entries = match db_entries(&self.db, name.as_slice()) {
                        Ok(e) => e,
                        Err(e) => return Err(StoreError::Backend(e)),
                    };
                    let keys = lossy_keys(&entries);
                    out.push((id, keys));
                }
            }
            i = i + 1;
        }
        Ok(out)
    }

    /// Restores a backup: each listed upstream's credentials are replaced.
    pub fn import_entries(&mut self, upstreams: &Vec<(String, Vec<String>)>) -> (r: Result<(), StoreError>)
        ensures
            r is Ok ==> forall|i: int| 0 <= i < upstreams@.len() && (forall|j: int| i < j < upstreams@.len() ==> (#[trigger] upstreams@[j]).0@ != upstreams@[i].0@)
                ==> final(self).key_set((#[trigger] upstreams@[i]).0@) == enc_all(upstreams@[i].1@).to_set(),
    {
        let mut i: usize = 0;
        while i < upstreams.len()
            invariant
                i <= upstreams@.len(),
                forall|q: int| 0 <= q < i && (forall|j: int| q < j < i ==> (#[trigger] upstreams@[j]).0@ != upstreams@[q].0@)
                    ==> self.key_set((#[trigger] upstreams@[q]).0@) == enc_all(upstreams@[q].1@).to_set(),
            decreases upstreams@.len() - i,
        {
            let ghost before = *self;
            self.replace_keys(upstreams[i].0.as_str(), &upstreams[i].1)?;
            proof {
                assert forall|q: int| 0 <= q < i + 1 && (forall|j: int| q < j < i + 1 ==> (#[trigger] upstreams@[j]).0@ != upstreams@[q].0@)
                    implies self.key_set((#[trigger] upstreams@[q]).0@) == enc_all(upstreams@[q].1@).to_set() by {
                    if q < i {
                        assert(upstreams@[i as int].0@ != upstreams@[q].0@);
                        lemma_tree_of_injective(upstreams@[i as int].0@, upstreams@[q].0@);
                        assert(self.contents(tree_of(upstreams@[q].0@)) == before.contents(tree_of(upstreams@[q].0@)));
                    }
                }
            }
            i = i + 1;
        }
        Ok(())
    }

    pub fn flush(&mut self) -> (r: Result<(), StoreError>)
        ensures
            forall|t: Seq<u8>| #[trigger] final(self).contents(t) == old(self).contents(t),
    {
        match db_flush(&mut self.db) {
            Ok(_) => Ok(()),
            Err(e) => Err(StoreError::Backend(e)),
        }
    }

    /// Writes staged balances, eight little-endian bytes each under the key's
    /// bytes in the billing tree, then flushes; stops at the first failure.
    pub fn flush_balances(&mut self, pending: &Vec<(String, i64)>) -> (r: Result<(), StoreError>)
        ensures
            r is Ok ==> distinct_keys(pending@) ==> forall|i: int| 0 <= i < pending@.len() ==> {
                let m = final(self).contents(billing_tree());
                &&& m.contains_key(encode_utf8((#[trigger] pending@[i]).0@))
                &&& decode_spec(m[encode_utf8(pending@[i].0@)]) == Some(pending@[i].1)
            },
    {
        let billing: Vec<u8> = slice_to_vec_u8("billing".as_bytes());
        let mut i: usize = 0;
        while i < pending.len()
            invariant
                i <= pending@.len(),
                billing@ == billing_tree(),
                distinct_keys(pending@) ==> forall|q: int| 0 <= q < i ==> {
                    let m = self.contents(billing_tree());
                    &&& m.contains_key(encode_utf8((#[trigger] pending@[q]).0@))
                    &&& decode_spec(m[encode_utf8(pending@[q].0@)]) == Some(pending@[q].1)
                },
            decreases pending@.len() - i,
        {
            let encoded = encode_balance(pending[i].1);
            let ghost before = self.contents(billing_tree());
            match db_insert(&mut self.db, billing.as_slice(), pending[i].0.as_str().as_bytes(), encoded.as_slice()) {
                Ok(_) => {},
                Err(e) => return Err(StoreError::Backend(e)),
            }
            proof {
                broadcast use vstd::utf8::encode_utf8_decode_utf8;
                if distinct_keys(pending@) {
                    assert forall|q: int| 0 <= q < i + 1 implies {
                        let m = self.contents(billing_tree());
                        &&& m.contains_key(encode_utf8((#[trigger] pending@[q]).0@))
                        &&& decode_spec(m[encode_utf8(pending@[q].0@)]) == Some(pending@[q].1)
                    } by {
                        if q < i {
                            assert(pending@[q].0@ != pending@[i as int].0@);
                            assert(decode_utf8(encode_utf8(pending@[q].0@)) != decode_utf8(encode_utf8(pending@[i as int].0@)));
                        }
                    }
                }
            }
            i = i + 1;
        }
        match db_flush(&mut self.db) {
            Ok(_) => Ok(()),
            Err(e) => Err(StoreError::Backend(e)),
        }
    }
}

/// No two writes name the same key.
pub open spec fn distinct_keys(w: Seq<(String, i64)>) -> bool {
    forall|i: int, j: int| 0 <= i < j < w.len() ==> (#[trigger] w[i]).0@ != (#[trigger] w[j]).0@
}

fn lossy_keys(entries: &Vec<(Vec<u8>, Vec<u8>)>) -> (r: Vec<String>)
    ensures
        r@.len() == entries@.len(),
        forall|j: int| 0 <= j < r@.len() ==> (#[trigger] r@[j])@ == lossy_text_of(entries@[j].0@),
{
    let mut out: Vec<String> = Vec::new();
    let mut j: usize = 0;
    while j < entries.len()
        invariant
            j <= entries@.len(),
            out@.len() == j,
            forall|q: int| 0 <= q < j ==> (#[trigger] out@[q])@ == lossy_text_of(entries@[q].0@),
        decreases entries@.len() - j,
    {
        out.push(lossy_text(entries[j].0.as_slice()));
        j = j + 1;
    }
    out
}

fn slice_to_vec_u8(b: &[u8]) -> (r: Vec<u8>)
    ensures
        r@ == b@,
{
    let mut out: Vec<u8> = Vec::new();
    let mut i: usize = 0;
    while i < b.len()
        invariant
            i <= b@.len(),
            out@ == b@.subrange(0, i as int),
        decreases b@.len() - i,
    {
        out.push(b[i]);
        i = i + 1;
        assert(out@ =~= b@.subrange(0, i as int));
    }
    assert(out@ =~= b@);
    out
}

proof fn lemma_flush_keeps(before: &KeyStore, after: &KeyStore, orig: &KeyStore, tree: Seq<u8>)
    requires
        forall|t: Seq<u8>| #[trigger] tree_contents(after.db, t) == tree_contents(before.db, t),
        before.others_kept(orig, tree),
    ensures
        after.others_kept(orig, tree),
        after.contents(tree) == before.contents(tree),
        forall|t: Seq<u8>| #[trigger] after.contents(t) == before.contents(t),
{
    assert forall|t: Seq<u8>| t != tree implies #[trigger] after.contents(t) == orig.contents(t) by {
        assert(tree_contents(after.db, t) == tree_contents(before.db, t));
        assert(before.contents(t) == orig.contents(t));
    }
    assert forall|t: Seq<u8>| #[trigger] after.contents(t) == before.contents(t) by {
        assert(tree_contents(after.db, t) == tree_contents(before.db, t));
    }
}

proof fn lemma_pairs_len(v: Seq<(Vec<u8>, Vec<u8>)>, m: Map<Seq<u8>, Seq<u8>>)
    requires
        pairs_are(v, m),
    ensures
        v.len() == m.dom().len(),
        m.dom().finite(),
{
    let keys = v.map_values(|p: (Vec<u8>, Vec<u8>)| p.0@);
    assert(keys.no_duplicates()) by {
        assert forall|i: int, j: int| 0 <= i < keys.len() && 0 <= j < keys.len() && i != j implies keys[i] != keys[j] by {
            if i < j {
                assert(v[i].0@ != v[j].0@);
            } else {
                assert(v[j].0@ != v[i].0@);
            }
        }
    }
    assert(keys.to_set() =~= m.dom()) by {
        assert forall|k: Seq<u8>| keys.to_set().contains(k) <==> m.dom().contains(k) by {
            if m.dom().contains(k) {
                let i = choose|i: int| 0 <= i < v.len() && (#[trigger] v[i]).0@ == k;
                assert(keys[i] == k);
            }
        }
    }
    keys.unique_seq_to_set();
}

proof fn lemma_tree_of_injective(a: Seq<char>, b: Seq<char>)
    requires
        a != b,
    ensures
        tree_of(a) != tree_of(b),
{
    broadcast use vstd::utf8::encode_utf8_decode_utf8;
    if tree_of(a) == tree_of(b) {
        assert(decode_utf8(tree_of(a)) == "u:"@ + a);
        assert(("u:"@ + a).subrange(2, ("u:"@ + a).len() as int) =~= a) by {
            reveal_strlit("u:");
        }
        assert(("u:"@ + b).subrange(2, ("u:"@ + b).len() as int) =~= b) by {
            reveal_strlit("u:");
        }
    }
}

/// The balances a list of stored pairs gives, later pairs winning; values
/// that are not eight bytes are skipped.
pub open spec fn loaded_balances(v: Seq<(Vec<u8>, Vec<u8>)>) -> Map<Seq<char>, i64>
    decreases v.len(),
{
    if v.len() == 0 {
        Map::empty()
    } else {
        let m = loaded_balances(v.drop_last());
        match decode_spec(v.last().1@) {
            Some(b) => m.insert(lossy_text_of(v.last().0@), b),
            None => m,
        }
    }
}

/// For these pairs, the lossy reading of a valid key is its plain decoding.
pub open spec fn lossy_agrees(v: Seq<(Vec<u8>, Vec<u8>)>) -> bool {
    forall|q: int| 0 <= q < v.len() && valid_utf8((#[trigger] v[q]).0@) ==> lossy_text_of(v[q].0@) == decode_utf8(v[q].0@)
}

/// A balance stored under a key's bytes comes back under that key when the
/// billing tree is loaded, as long as every stored key is valid UTF-8.
pub proof fn lemma_stored_balance_reloads(v: Seq<(Vec<u8>, Vec<u8>)>, m: Map<Seq<u8>, Seq<u8>>, key: Seq<char>, b: i64)
    requires
        pairs_are(v, m),
        lossy_agrees(v),
        forall|k: Seq<u8>| #[trigger] m.contains_key(k) ==> valid_utf8(k),
        m.contains_key(encode_utf8(key)),
        decode_spec(m[encode_utf8(key)]) == Some(b),
    ensures
        loaded_balances(v).contains_key(key),
        loaded_balances(v)[key] == b,
{
    broadcast use vstd::utf8::encode_utf8_decode_utf8;
    broadcast use vstd::utf8::decode_utf8_encode_utf8;
    let j = choose|j: int| 0 <= j < v.len() && (#[trigger] v[j]).0@ == encode_utf8(key);
    lemma_reload_prefix(v, m, key, b, j, v.len() as int);
    assert(v.subrange(0, v.len() as int) =~= v);
}

proof fn lemma_reload_prefix(v: Seq<(Vec<u8>, Vec<u8>)>, m: Map<Seq<u8>, Seq<u8>>, key: Seq<char>, b: i64, j: int, n: int)
    requires
        pairs_are(v, m),
        lossy_agrees(v),
        forall|k: Seq<u8>| #[trigger] m.contains_key(k) ==> valid_utf8(k),
        0 <= j < n <= v.len(),
        v[j].0@ == encode_utf8(key),
        decode_spec(m[encode_utf8(key)]) == Some(b),
    ensures
        loaded_balances(v.subrange(0, n)).contains_key(key),
        loaded_balances(v.subrange(0, n))[key] == b,
    decreases n,
{
    broadcast use vstd::utf8::encode_utf8_decode_utf8;
    broadcast use vstd::utf8::decode_utf8_encode_utf8;
    let p = v.subrange(0, n);
    assert(p.drop_last() =~= v.subrange(0, n - 1));
    assert(p.last() == v[n - 1]);
    assert(m.contains_key(v[n - 1].0@));
    assert(valid_utf8(v[n - 1].0@));
    assert(lossy_text_of(v[n - 1].0@) == decode_utf8(v[n - 1].0@));
    if n - 1 == j {
        assert(m[v[j].0@] == v[j].1@);
        assert(decode_utf8(encode_utf8(key)) == key);
    } else {
        lemma_reload_prefix(v, m, key, b, j, n - 1);
        if n - 1 > j {
            assert(v[j].0@ != v[n - 1].0@);
            assert(encode_utf8(decode_utf8(v[n - 1].0@)) == v[n - 1].0@);
            assert(decode_utf8(v[n - 1].0@) != key);
        }
    }
}

impl BillingStore {
    /// The store that a list of stored pairs describes, with nothing pending.
    pub fn from_entries(entries: &Vec<(Vec<u8>, Vec<u8>)>) -> (r: BillingStore)
        ensures
            r.balances_view() == loaded_balances(entries@),
            r.pending_view() == Seq::<(Seq<char>, i64)>::empty(),
            lossy_agrees(entries@),
    {
        let mut store = BillingStore::new();
        let mut i: usize = 0;
        while i < entries.len()
            invariant
                i <= entries@.len(),
                store.balances_view() == loaded_balances(entries@.subrange(0, i as int)),
                store.pending_view() == Seq::<(Seq<char>, i64)>::empty(),
                forall|q: int| 0 <= q < i && valid_utf8((#[trigger] entries@[q]).0@) ==> lossy_text_of(entries@[q].0@) == decode_utf8(entries@[q].0@),
            decreases entries@.len() - i,
        {
            assert(entries@.subrange(0, i + 1).drop_last() =~= entries@.subrange(0, i as int));
            let bytes = entries[i].0.as_slice();
            assert(bytes@ == entries@[i as int].0@);
            let key = lossy_text(bytes);
            store.load_entry(key, entries[i].1.as_slice());
            i = i + 1;
        }
        assert(entries@.subrange(0, i as int) =~= entries@);
        store
    }

    /// Loads every stored balance of the billing tree.
    pub fn load(store: &KeyStore) -> (r: Result<BillingStore, StoreError>)
        ensures
            r matches Ok(s) ==> s.pending_view() == Seq::<(Seq<char>, i64)>::empty()
                && exists|v: Seq<(Vec<u8>, Vec<u8>)>| #[trigger] pairs_are(v, store.contents(billing_tree()))
                    && s.balances_view() == loaded_balances(v) && lossy_agrees(v),
    {
        let billing: Vec<u8> = slice_to_vec_u8("billing".as_bytes());
        match db_entries(&store.db, billing.as_slice()) {
            Ok(entries) => {
                let r = BillingStore::from_entries(&entries);
                assert(billing@ == billing_tree());
                assert(pairs_are(entries@, store.contents(billing_tree())));
                Ok(r)
            },
            Err(e) => Err(StoreError::Backend(e)),
        }
    }
}

} // verus!
