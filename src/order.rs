//! The ordered map from entry key to cumulative byte size, oldest first,
//! held in a `linked_hash_map::LinkedHashMap`.
use linked_hash_map::LinkedHashMap;
use vstd::prelude::*;

verus! {

/// One slot of the recency order: an entry key and its size in bytes.
pub type Slot = (Seq<char>, u64);

#[verifier::external_type_specification]
#[verifier::external_body]
#[verifier::reject_recursive_types(K)]
#[verifier::reject_recursive_types(V)]
#[verifier::reject_recursive_types(S)]
pub struct ExLinkedHashMap<K, V, S>(LinkedHashMap<K, V, S>);

/// The (key, value) pairs that a map holds, in its iteration order (oldest
/// insertion first).
pub uninterp spec fn slots(m: LinkedHashMap<String, u64>) -> Seq<Slot>;

/// The position of the first pair of `s` whose key is `k`.
pub open spec fn find<V>(s: Seq<(Seq<char>, V)>, k: Seq<char>) -> Option<int>
    decreases s.len(),
{
    if s.len() == 0 {
        None
    } else if s[0].0 == k {
        Some(0)
    } else {
        match find(s.drop_first(), k) {
            Some(i) => Some(i + 1),
            None => None,
        }
    }
}

/// Relies on `LinkedHashMap::new`: the new map is empty.
#[verifier::external_body]
pub(crate) fn lhm_new() -> (r: LinkedHashMap<String, u64>)
    ensures
        slots(r) == Seq::<Slot>::empty(),
{
    LinkedHashMap::new()
}

/// Relies on `LinkedHashMap::len`: the number of pairs held.
#[verifier::external_body]
pub(crate) fn lhm_len(m: &LinkedHashMap<String, u64>) -> (r: usize)
    ensures
        r == slots(*m).len(),
{
    m.len()
}

/// Relies on `LinkedHashMap::get_refresh`: the pair with key `k`, if any,
/// moves to the end of the order; its value is returned.
#[verifier::external_body]
pub(crate) fn lhm_get_refresh(m: &mut LinkedHashMap<String, u64>, k: &String) -> (r: Option<u64>)
    ensures
        match find(slots(*old(m)), k@) {
            Some(i) => {
                &&& r == Some(slots(*old(m))[i].1)
                &&& slots(*final(m)) == slots(*old(m)).remove(i).push(slots(*old(m))[i])
            },
            None => r.is_none() && slots(*final(m)) == slots(*old(m)),
        },
{
    m.get_refresh(k).map(|v| *v)
}

/// Relies on `LinkedHashMap::remove`: the pair with key `k`, if any, leaves
/// the order; its value is returned.
#[verifier::external_body]
pub(crate) fn lhm_remove(m: &mut LinkedHashMap<String, u64>, k: &String) -> (r: Option<u64>)
    ensures
        match find(slots(*old(m)), k@) {
            Some(i) => {
                &&& r == Some(slots(*old(m))[i].1)
                &&& slots(*final(m)) == slots(*old(m)).remove(i)
            },
            None => r.is_none() && slots(*final(m)) == slots(*old(m)),
        },
{
    m.remove(k)
}

/// Relies on `LinkedHashMap::entry` and `Entry::or_insert`: a reference to
/// the value under `k`; a missing key is first appended with the value 0.
/// An existing pair keeps its place in the order.
#[verifier::external_body]
pub(crate) fn lhm_entry_or_zero(m: &mut LinkedHashMap<String, u64>, k: String) -> (r: &mut u64)
    ensures
        match find(slots(*old(m)), k@) {
            Some(i) => {
                &&& *r == slots(*old(m))[i].1
                &&& slots(*final(m)) == slots(*old(m)).update(i, (k@, *final(r)))
            },
            None => {
                &&& *r == 0
                &&& slots(*final(m)) == slots(*old(m)).push((k@, *final(r)))
            },
        },
{
    m.entry(k).or_insert(0)
}

/// Relies on `LinkedHashMap::keys`: the keys in iteration order.
#[verifier::external_body]
pub(crate) fn lhm_keys(m: &LinkedHashMap<String, u64>) -> (r: Vec<String>)
    ensures
        r@.len() == slots(*m).len(),
        forall|i: int| 0 <= i < r@.len() ==> #[trigger] r@[i]@ == slots(*m)[i].0,
{
    m.keys().cloned().collect()
}

} // verus!
