//! The recency index of the cache: entry keys with their cumulative sizes,
//! oldest first, and the rule that evicts whole entries to make room.
use linked_hash_map::LinkedHashMap;
use vstd::prelude::*;

use crate::error::EntryError;
use crate::order::{
    find, lhm_entry_or_zero, lhm_get_refresh, lhm_keys, lhm_len, lhm_new, lhm_remove, slots, Slot,
};

verus! {

/// The sum of the sizes in `s`.
pub open spec fn total(s: Seq<Slot>) -> nat
    decreases s.len(),
{
    if s.len() == 0 {
        0
    } else {
        s[0].1 as nat + total(s.drop_first())
    }
}

/// No key occurs twice in `s`.
pub open spec fn unique(s: Seq<Slot>) -> bool {
    forall|i: int, j: int| 0 <= i < j < s.len() ==> s[i].0 != s[j].0
}

/// The keys of `s`, in order.
pub open spec fn keys_of(s: Seq<Slot>) -> Seq<Seq<char>> {
    s.map_values(|e: Slot| e.0)
}

/// The views of a sequence of strings.
pub open spec fn string_views(v: Seq<String>) -> Seq<Seq<char>> {
    v.map_values(|k: String| k@)
}

/// The free room left by `used` bytes under `capacity`, never below zero.
pub open spec fn available(capacity: u64, used: nat) -> int {
    if capacity >= used {
        capacity - used
    } else {
        0
    }
}

/// The slots that eviction removes from `s` when `missing` bytes must be
/// freed for an entry `key`: oldest first, skipping `key`, until the freed
/// sizes reach `missing` or nothing is left.
pub open spec fn evicted(s: Seq<Slot>, key: Seq<char>, missing: int) -> Seq<Slot>
    decreases s.len(),
{
    if s.len() == 0 || missing <= 0 {
        Seq::empty()
    } else if s[0].0 == key {
        evicted(s.drop_first(), key, missing)
    } else {
        seq![s[0]] + evicted(s.drop_first(), key, missing - s[0].1)
    }
}

/// The slots of `s` that stay after the eviction of `evicted(s, key, missing)`.
pub open spec fn kept(s: Seq<Slot>, key: Seq<char>, missing: int) -> Seq<Slot>
    decreases s.len(),
{
    if s.len() == 0 || missing <= 0 {
        s
    } else if s[0].0 == key {
        seq![s[0]] + kept(s.drop_first(), key, missing)
    } else {
        kept(s.drop_first(), key, missing - s[0].1)
    }
}

/// `s` with `n` more bytes counted for `key`: in place where `key` is
/// present, else as a new newest slot.
pub open spec fn grow(s: Seq<Slot>, key: Seq<char>, n: u64) -> Seq<Slot> {
    match find(s, key) {
        Some(i) => s.update(i, (key, (s[i].1 + n) as u64)),
        None => s.push((key, n)),
    }
}

/// The bytes that must be freed before `n` more bytes fit in `s` under `capacity`.
pub open spec fn missing_for(s: Seq<Slot>, capacity: u64, n: u64) -> int {
    n - available(capacity, total(s))
}

/// The order after `n` bytes were counted under `key`.
pub open spec fn after_insert(s: Seq<Slot>, capacity: u64, key: Seq<char>, n: u64) -> Seq<Slot> {
    grow(kept(s, key, missing_for(s, capacity, n)), key, n)
}

/// The order after `key` was read: its slot, if present, becomes the newest.
pub open spec fn refreshed(s: Seq<Slot>, key: Seq<char>) -> Seq<Slot> {
    match find(s, key) {
        Some(i) => s.remove(i).push(s[i]),
        None => s,
    }
}

pub proof fn lemma_find<V>(s: Seq<(Seq<char>, V)>, k: Seq<char>)
    ensures
        match find(s, k) {
            Some(i) => 0 <= i < s.len() && s[i].0 == k && forall|j: int|
                0 <= j < i ==> #[trigger] s[j].0 != k,
            None => forall|j: int| 0 <= j < s.len() ==> #[trigger] s[j].0 != k,
        },
    decreases s.len(),
{
    if s.len() > 0 && s[0].0 != k {
        lemma_find(s.drop_first(), k);
        assert forall|j: int| 1 <= j < s.len() implies #[trigger] s[j].0 == s.drop_first()[j - 1].0 by {}
    }
}

pub proof fn lemma_find_unique(s: Seq<Slot>, k: Seq<char>, j: int)
    requires
        unique(s),
        0 <= j < s.len(),
        s[j].0 == k,
    ensures
        find(s, k) == Some(j),
{
    lemma_find(s, k);
}

pub proof fn lemma_total_push(s: Seq<Slot>, x: Slot)
    ensures
        total(s.push(x)) == total(s) + x.1,
    decreases s.len(),
{
    if s.len() > 0 {
        assert(s.push(x).drop_first() =~= s.drop_first().push(x));
        lemma_total_push(s.drop_first(), x);
    } else {
        assert(s.push(x).drop_first() =~= s);
    }
}

pub proof fn lemma_total_remove(s: Seq<Slot>, i: int)
    requires
        0 <= i < s.len(),
    ensures
        total(s.remove(i)) + s[i].1 == total(s),
    decreases s.len(),
{
    if i == 0 {
        assert(s.remove(0) =~= s.drop_first());
    } else {
        assert(s.remove(i).drop_first() =~= s.drop_first().remove(i - 1));
        lemma_total_remove(s.drop_first(), i - 1);
    }
}

pub proof fn lemma_total_update(s: Seq<Slot>, i: int, x: Slot)
    requires
        0 <= i < s.len(),
    ensures
        total(s.update(i, x)) + s[i].1 == total(s) + x.1,
    decreases s.len(),
{
    if i == 0 {
        assert(s.update(0, x).drop_first() =~= s.drop_first());
    } else {
        assert(s.update(i, x).drop_first() =~= s.drop_first().update(i - 1, x));
        lemma_total_update(s.drop_first(), i - 1, x);
    }
}

pub proof fn lemma_total_concat(a: Seq<Slot>, b: Seq<Slot>)
    ensures
        total(a + b) == total(a) + total(b),
    decreases a.len(),
{
    if a.len() > 0 {
        assert((a + b).drop_first() =~= a.drop_first() + b);
        lemma_total_concat(a.drop_first(), b);
    } else {
        assert(a + b =~= b);
    }
}

/// Growing a slot keeps the keys unique and adds `n` to the total.
pub proof fn lemma_grow(s: Seq<Slot>, key: Seq<char>, n: u64)
    requires
        unique(s),
        total(s) + n <= u64::MAX,
    ensures
        unique(grow(s, key, n)),
        total(grow(s, key, n)) == total(s) + n,
{
    lemma_find(s, key);
    match find(s, key) {
        Some(i) => {
            lemma_total_remove(s, i);
            lemma_total_update(s, i, (key, (s[i].1 + n) as u64));
        },
        None => {
            lemma_total_push(s, (key, n));
        },
    }
}

/// The slots of `s` whose key is not `key`, in order.
pub open spec fn others(s: Seq<Slot>, key: Seq<char>) -> Seq<Slot>
    decreases s.len(),
{
    if s.len() == 0 {
        s
    } else if s[0].0 == key {
        others(s.drop_first(), key)
    } else {
        seq![s[0]] + others(s.drop_first(), key)
    }
}

proof fn lemma_total_cons(x: Slot, t: Seq<Slot>)
    ensures
        total(seq![x] + t) == x.1 + total(t),
{
    assert((seq![x] + t).drop_first() =~= t);
}

proof fn lemma_grow_total(s: Seq<Slot>, key: Seq<char>, n: u64)
    requires
        total(s) + n <= u64::MAX,
    ensures
        total(grow(s, key, n)) == total(s) + n,
        (forall|j: int| 0 <= j < s.len() ==> #[trigger] s[j].0 == key) ==> forall|j: int|
            0 <= j < grow(s, key, n).len() ==> #[trigger] grow(s, key, n)[j].0 == key,
{
    lemma_find(s, key);
    match find(s, key) {
        Some(i) => {
            lemma_total_remove(s, i);
            lemma_total_update(s, i, (key, (s[i].1 + n) as u64));
        },
        None => {
            lemma_total_push(s, (key, n));
        },
    }
}

/// What eviction leaves and removes: the sizes add up to the old total; it
/// freed at least `missing` bytes or left only `key`; the evicted slots are
/// the oldest slots other than `key`; and all but the last of them freed
/// less than `missing`.
proof fn lemma_eviction(s: Seq<Slot>, key: Seq<char>, m: int)
    ensures
        total(kept(s, key, m)) + total(evicted(s, key, m)) == total(s),
        m <= total(evicted(s, key, m)) || forall|j: int|
            0 <= j < kept(s, key, m).len() ==> #[trigger] kept(s, key, m)[j].0 == key,
        evicted(s, key, m).len() <= others(s, key).len(),
        evicted(s, key, m) == others(s, key).take(evicted(s, key, m).len() as int),
        evicted(s, key, m).len() > 0 ==> total(evicted(s, key, m).drop_last()) < m,
    decreases s.len(),
{
    let ev = evicted(s, key, m);
    if s.len() == 0 || m <= 0 {
        assert(ev =~= others(s, key).take(0));
    } else {
        let rest = s.drop_first();
        if s[0].0 == key {
            lemma_eviction(rest, key, m);
            lemma_total_cons(s[0], kept(rest, key, m));
            let k = kept(s, key, m);
            assert forall|j: int| 0 <= j < k.len() && m > total(ev) implies #[trigger] k[j].0 == key by {
                if j > 0 {
                    assert(k[j] == kept(rest, key, m)[j - 1]);
                }
            }
        } else {
            let m2 = m - s[0].1;
            lemma_eviction(rest, key, m2);
            let ev2 = evicted(rest, key, m2);
            lemma_total_cons(s[0], ev2);
            assert(others(s, key) == seq![s[0]] + others(rest, key));
            assert(ev == seq![s[0]] + ev2);
            assert(ev =~= (seq![s[0]] + others(rest, key)).take(ev2.len() + 1 as int));
            if ev2.len() > 0 {
                assert(ev.drop_last() =~= seq![s[0]] + ev2.drop_last());
                lemma_total_cons(s[0], ev2.drop_last());
            } else {
                assert(ev.drop_last() =~= Seq::<Slot>::empty());
            }
        }
    }
}

/// Eviction keeps the capacity. If the index was within its capacity, or
/// held a single entry and `n` is not zero, then after `n` more bytes are
/// counted under `key` the total is within the capacity, unless `key` is
/// the only entry left (an entry alone may exceed the capacity). So from an
/// empty index every run of non-empty inserts keeps this. The evicted
/// entries are the oldest entries other than `key`, and no shorter run of
/// them would have freed enough room.
pub proof fn capacity_respected(s: Seq<Slot>, capacity: u64, key: Seq<char>, n: u64)
    requires
        total(s) <= capacity || (s.len() == 1 && n > 0),
        total(s) + n <= u64::MAX,
    ensures
        ({
            let r = after_insert(s, capacity, key, n);
            total(r) <= capacity || forall|j: int| 0 <= j < r.len() ==> #[trigger] r[j].0 == key
        }),
        ({
            let ev = evicted(s, key, missing_for(s, capacity, n));
            &&& ev == others(s, key).take(ev.len() as int)
            &&& ev.len() > 0 ==> total(ev.drop_last()) < missing_for(s, capacity, n)
        }),
{
    let m = missing_for(s, capacity, n);
    lemma_eviction(s, key, m);
    lemma_grow_total(kept(s, key, m), key, n);
    if total(s) > capacity {
        let k = kept(s, key, m);
        assert(s.drop_first() =~= Seq::<Slot>::empty());
        assert(m > 0);
        assert(kept(s.drop_first(), key, m) == s.drop_first());
        assert(kept(s.drop_first(), key, m - s[0].1) == s.drop_first());
        assert forall|j: int| 0 <= j < k.len() implies #[trigger] k[j].0 == key by {
            if s[0].0 != key {
                assert(k.len() == 0);
            } else {
                assert(k =~= seq![s[0]]);
            }
        }
    }
}

/// A capacity-bounded recency index: each entry key with the bytes its files
/// occupy, ordered from least to most recently used.
pub struct LruIndex {
    items: LinkedHashMap<String, u64>,
    total: u64,
    capacity: u64,
}

impl View for LruIndex {
    type V = Seq<Slot>;

    closed spec fn view(&self) -> Seq<Slot> {
        slots(self.items)
    }
}

impl LruIndex {
    /// The index is consistent: keys are unique and the running total is the
    /// sum of the sizes.
    pub closed spec fn wf(&self) -> bool {
        &&& unique(self@)
        &&& self.total == total(self@)
    }

    /// The configured capacity in bytes.
    pub closed spec fn spec_capacity(&self) -> u64 {
        self.capacity
    }

    /// An empty index with the given capacity.
    pub fn new(capacity: u64) -> (r: LruIndex)
        ensures
            r.wf(),
            r@ == Seq::<Slot>::empty(),
            r.spec_capacity() == capacity,
    {
        LruIndex { items: lhm_new(), total: 0, capacity }
    }

    /// Appends `key` with `size` bytes as the newest entry.
    pub(crate) fn push_new(&mut self, key: &String, size: u64)
        requires
            old(self).wf(),
            find(old(self)@, key@) is None,
            total(old(self)@) + size <= u64::MAX,
        ensures
            final(self).wf(),
            final(self)@ == old(self)@.push((key@, size)),
            final(self).spec_capacity() == old(self).spec_capacity(),
    {
        let ghost s = self@;
        proof {
            lemma_find(s, key@);
            lemma_total_push(s, (key@, size));
        }
        let slot = lhm_entry_or_zero(&mut self.items, key.clone());
        *slot = size;
        self.total = self.total + size;
    }

    /// The capacity in bytes.
    pub fn capacity(&self) -> (r: u64)
        ensures
            r == self.spec_capacity(),
    {
        self.capacity
    }

    /// The bytes occupied by all entries.
    pub fn size(&self) -> (r: u64)
        requires
            self.wf(),
        ensures
            r == total(self@),
    {
        self.total
    }

    /// The number of entries.
    pub fn len(&self) -> (r: usize)
        ensures
            r == self@.len(),
    {
        lhm_len(&self.items)
    }

    /// The entry keys, oldest first.
    pub fn keys(&self) -> (r: Vec<String>)
        ensures
            r@.len() == self@.len(),
            forall|i: int| 0 <= i < r@.len() ==> #[trigger] r@[i]@ == self@[i].0,
    {
        lhm_keys(&self.items)
    }

    /// Marks `key` as the most recently used entry. Where no entry has that
    /// key, nothing changes and the mismatch is reported as `Unexpected`.
    pub fn touch(&mut self, key: &String) -> (r: Result<(), EntryError>)
        requires
            old(self).wf(),
        ensures
            final(self).wf(),
            final(self)@ == refreshed(old(self)@, key@),
            final(self).spec_capacity() == old(self).spec_capacity(),
            r is Ok <==> find(old(self)@, key@).is_some(),
            r is Err ==> r->Err_0 == (EntryError::Unexpected { key: *key }),
    {
        let ghost s = self@;
        let r = lhm_get_refresh(&mut self.items, key);
        proof {
            lemma_find(s, key@);
            if let Some(i) = find(s, key@) {
                let t = s.remove(i).push(s[i]);
                lemma_total_remove(s, i);
                lemma_total_push(s.remove(i), s[i]);
                assert forall|a: int, b: int| 0 <= a < b < t.len() implies t[a].0 != t[b].0 by {
                    if b == t.len() - 1 {
                        if a < i {
                            assert(t[a] == s[a]);
                        } else {
                            assert(t[a] == s[a + 1]);
                        }
                    } else {
                        if a >= i {
                            assert(t[a] == s[a + 1] && t[b] == s[b + 1]);
                        } else if b >= i {
                            assert(t[a] == s[a] && t[b] == s[b + 1]);
                        }
                    }
                }
            }
        }
        match r {
            Some(_) => Ok(()),
            None => Err(EntryError::Unexpected { key: key.clone() }),
        }
    }

    /// Counts `n` more bytes under `key`, first evicting the oldest other
    /// entries until the new bytes fit in the capacity, or until no other
    /// entry is left. Returns the evicted keys, oldest first. The entry
    /// `key` is never evicted by its own growth; a new key becomes the
    /// newest entry, an existing one keeps its place.
    pub fn insert(&mut self, key: &String, n: u64) -> (gone: Vec<String>)
        requires
            old(self).wf(),
            total(old(self)@) + n <= u64::MAX,
        ensures
            final(self).wf(),
            final(self).spec_capacity() == old(self).spec_capacity(),
            final(self)@ == after_insert(old(self)@, old(self).spec_capacity(), key@, n),
            string_views(gone@) == keys_of(
                evicted(old(self)@, key@, missing_for(old(self)@, old(self).spec_capacity(), n)),
            ),
    {
        let ghost s0 = self@;
        let ghost m = missing_for(s0, self.capacity, n);
        let avail: u64 = if self.capacity >= self.total {
            self.capacity - self.total
        } else {
            0
        };
        let mut gone: Vec<String> = Vec::new();
        if avail < n {
            let missing: u64 = n - avail;
            let order = lhm_keys(&self.items);
            let mut removed: u64 = 0;
            let mut i: usize = 0;
            let ghost mut kp: Seq<Slot> = Seq::empty();
            let ghost mut ev: Seq<Slot> = Seq::empty();
            assert(s0.skip(0) =~= s0);
            assert(kp + kept(s0, key@, m) =~= kept(s0, key@, m));
            assert(ev + evicted(s0, key@, m) =~= evicted(s0, key@, m));
            assert(string_views(gone@) =~= keys_of(ev));
            while removed < missing && i < order.len()
                invariant
                    0 <= i <= order@.len() == s0.len(),
                    forall|j: int| 0 <= j < order@.len() ==> #[trigger] order@[j]@ == s0[j].0,
                    unique(s0),
                    total(s0) <= u64::MAX,
                    m == missing,
                    self.capacity == old(self).capacity,
                    self@ == kp + s0.skip(i as int),
                    unique(self@),
                    self.total == total(self@),
                    removed + self.total == total(s0),
                    forall|j: int| 0 <= j < kp.len() ==> #[trigger] kp[j].0 == key@,
                    kept(s0, key@, m) == kp + kept(s0.skip(i as int), key@, m - removed),
                    evicted(s0, key@, m) == ev + evicted(s0.skip(i as int), key@, m - removed),
                    string_views(gone@) == keys_of(ev),
                decreases order@.len() - i,
            {
                let ghost rest = s0.skip(i as int);
                assert(rest.drop_first() =~= s0.skip(i + 1));
                assert(rest[0] == s0[i as int]);
                if order[i] == *key {
                    proof {
                        assert(kp + rest =~= (kp + seq![rest[0]]) + s0.skip(i + 1));
                        assert(kp + (seq![rest[0]] + kept(s0.skip(i + 1), key@, m - removed))
                            =~= (kp + seq![rest[0]]) + kept(s0.skip(i + 1), key@, m - removed));
                        kp = kp + seq![rest[0]];
                    }
                } else {
                    let ghost cur = self@;
                    proof {
                        lemma_find_unique(cur, order@[i as int]@, kp.len() as int);
                        lemma_total_remove(cur, kp.len() as int);
                    }
                    let v = lhm_remove(&mut self.items, &order[i]);
                    proof {
                        assert(self@ =~= kp + s0.skip(i + 1));
                    }
                    let v = v.unwrap();
                    removed = removed + v;
                    self.total = self.total - v;
                    let k = order[i].clone();
                    let ghost g0 = gone@;
                    gone.push(k);
                    proof {
                        assert(k@ == rest[0].0);
                        assert(string_views(gone@) =~= string_views(g0).push(k@));
                        assert(keys_of(ev + seq![rest[0]]) =~= keys_of(ev).push(rest[0].0));
                        assert(ev + (seq![rest[0]] + evicted(s0.skip(i + 1), key@, m - (removed - v) - v))
                            =~= (ev + seq![rest[0]]) + evicted(s0.skip(i + 1), key@, m - removed));
                        ev = ev + seq![rest[0]];
                        assert(string_views(gone@) =~= keys_of(ev));
                    }
                }
                i = i + 1;
            }
            proof {
                assert(kept(s0.skip(i as int), key@, m - removed) == s0.skip(i as int));
                assert(evicted(s0.skip(i as int), key@, m - removed) =~= Seq::<Slot>::empty());
                assert(ev + Seq::<Slot>::empty() =~= ev);
            }
        }
        let ghost before = self@;
        proof {
            if avail >= n {
                assert(string_views(gone@) =~= keys_of(evicted(s0, key@, m)));
            }
            lemma_grow(before, key@, n);
            lemma_find(before, key@);
            if let Some(j) = find(before, key@) {
                lemma_total_remove(before, j);
            }
        }
        let slot = lhm_entry_or_zero(&mut self.items, key.clone());
        *slot = *slot + n;
        self.total = self.total + n;
        gone
    }
}

} // verus!
