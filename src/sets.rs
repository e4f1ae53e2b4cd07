use vstd::prelude::*;

verus! {

#[verifier::external_type_specification]
#[verifier::external_body]
#[verifier::reject_recursive_types(T)]
#[verifier::reject_recursive_types(S)]
pub struct ExAHashSet<T, S>(ahash::AHashSet<T, S>);

#[verifier::external_type_specification]
#[verifier::external_body]
pub struct ExRandomState(ahash::RandomState);

#[verifier::external_type_specification]
#[verifier::external_body]
#[verifier::reject_recursive_types(K)]
#[verifier::reject_recursive_types(V)]
#[verifier::reject_recursive_types(S)]
pub struct ExAHashMap<K, V, S>(ahash::AHashMap<K, V, S>);

/// Balances by billing key.
pub type BalanceMap = ahash::AHashMap<String, i64>;

/// What a map from strings to balances holds.
pub uninterp spec fn map_items(m: BalanceMap) -> Map<Seq<char>, i64>;

/// Relies on `ahash::AHashMap::new`: a new map is empty.
#[verifier::external_body]
pub(crate) fn balance_map_new() -> (r: BalanceMap)
    ensures
        map_items(r).dom() == Set::<Seq<char>>::empty(),
{
    ahash::AHashMap::new()
}

/// Relies on `AHashMap::get`.
#[verifier::external_body]
pub(crate) fn balance_map_get(m: &BalanceMap, k: &str) -> (r: Option<i64>)
    ensures
        match r {
            Some(v) => map_items(*m).contains_key(k@) && map_items(*m)[k@] == v,
            None => !map_items(*m).contains_key(k@),
        },
{
    m.get(k).copied()
}

/// Relies on `AHashMap::insert`: the key now maps to the value.
#[verifier::external_body]
pub(crate) fn balance_map_insert(m: &mut BalanceMap, k: String, v: i64)
    ensures
        map_items(*final(m)) == map_items(*old(m)).insert(k@, v),
{
    m.insert(k, v);
}

/// What a set of strings holds.
pub uninterp spec fn set_items(s: ahash::AHashSet<String>) -> Set<Seq<char>>;

/// Relies on `ahash::AHashSet::new`: a new set is empty.
#[verifier::external_body]
pub(crate) fn text_set_new() -> (r: ahash::AHashSet<String>)
    ensures
        set_items(r) == Set::<Seq<char>>::empty(),
{
    ahash::AHashSet::new()
}

/// Relies on `HashSet::insert` (reached through `AHashSet`'s `DerefMut`): the
/// value is added, and `true` comes back when it was not there before.
#[verifier::external_body]
pub(crate) fn text_set_insert(s: &mut ahash::AHashSet<String>, v: String) -> (r: bool)
    ensures
        set_items(*final(s)) == set_items(*old(s)).insert(v@),
        r == !set_items(*old(s)).contains(v@),
{
    s.insert(v)
}

/// Relies on `HashSet::contains` (reached through `AHashSet`'s `Deref`).
#[verifier::external_body]
pub(crate) fn text_set_contains(s: &ahash::AHashSet<String>, v: &str) -> (r: bool)
    ensures
        r == set_items(*s).contains(v@),
{
    s.contains(v)
}

/// Relies on `HashSet::is_empty` (reached through `AHashSet`'s `Deref`).
#[verifier::external_body]
pub(crate) fn text_set_is_empty(s: &ahash::AHashSet<String>) -> (r: bool)
    ensures
        r == (set_items(*s) == Set::<Seq<char>>::empty()),
{
    s.is_empty()
}

/// Relies on `HashSet::iter` (reached through `AHashSet`'s `Deref`): every
/// item once, in an order that the hasher decides.
#[verifier::external_body]
pub(crate) fn text_set_items(s: &ahash::AHashSet<String>) -> (r: Vec<String>)
    ensures
        r@.map_values(|x: String| x@).to_set() == set_items(*s),
        r@.map_values(|x: String| x@).no_duplicates(),
{
    s.iter().cloned().collect()
}

} // verus!
