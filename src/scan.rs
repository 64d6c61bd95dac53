//! Rebuilding the recency index from what a walk of the cache root found:
//! files grouped by their entry directory, groups ordered by their newest
//! modification time.
use vstd::prelude::*;

use crate::error::Error;
use crate::lru::{
    lemma_find, lemma_total_concat, lemma_total_push, lemma_total_update, total, unique, LruIndex,
};
use crate::order::{find, Slot};

verus! {

/// A file modification time: whole seconds since the Unix epoch and the
/// nanoseconds past them.
#[derive(Clone, Copy, Debug, PartialEq, Eq, Structural)]
pub struct Stamp {
    pub seconds: i64,
    pub nanos: u32,
}

/// `a` is not later than `b`.
pub open spec fn stamp_le(a: Stamp, b: Stamp) -> bool {
    a.seconds < b.seconds || (a.seconds == b.seconds && a.nanos <= b.nanos)
}

/// The later of two stamps.
pub open spec fn later(a: Stamp, b: Stamp) -> Stamp {
    if stamp_le(a, b) {
        b
    } else {
        a
    }
}

/// The Unix epoch, the starting point of every entry's stamp.
pub open spec fn epoch() -> Stamp {
    Stamp { seconds: 0, nanos: 0 }
}

fn later_of(a: Stamp, b: Stamp) -> (r: Stamp)
    ensures
        r == later(a, b),
{
    if a.seconds < b.seconds || (a.seconds == b.seconds && a.nanos <= b.nanos) {
        b
    } else {
        a
    }
}

/// One object that the walk found under the cache root.
#[derive(Debug)]
pub struct ScanItem {
    /// The full path, for diagnostics.
    pub path: String,
    /// The path's components relative to the root.
    pub parts: Vec<String>,
    pub is_dir: bool,
    pub modified: Stamp,
    /// The length in bytes.
    pub len: u64,
}

/// The name of the lock file in the cache root.
pub open spec fn lock_name() -> Seq<char> {
    seq!['.', 'l', 'o', 'c', 'k']
}

/// The name of the lock file in the cache root.
pub fn lock_file_name() -> (r: String)
    ensures
        r@ == lock_name(),
{
    let r = ".lock".to_owned();
    proof {
        reveal_strlit(".lock");
        assert(r@ =~= lock_name());
    }
    r
}

/// The object is the root's lock file.
pub open spec fn is_lock(f: ScanItem) -> bool {
    f.parts@.len() == 1 && f.parts@[0]@ == lock_name()
}

/// The object is a file that belongs to an entry, or should.
pub open spec fn counted(f: ScanItem) -> bool {
    !f.is_dir && !is_lock(f)
}

/// The object is a file that is not of the form `<key>/<name>`.
pub open spec fn misplaced(f: ScanItem) -> bool {
    counted(f) && f.parts@.len() != 2
}

/// The object is a file of the entry `k`.
pub open spec fn belongs(f: ScanItem, k: Seq<char>) -> bool {
    counted(f) && f.parts@.len() > 0 && f.parts@[0]@ == k
}

/// Some object of `items` is a file of the entry `k`.
pub open spec fn has_group(items: Seq<ScanItem>, k: Seq<char>) -> bool {
    exists|t: int| 0 <= t < items.len() && #[trigger] belongs(items[t], k)
}

/// The bytes of the files of the entry `k`.
pub open spec fn group_size(items: Seq<ScanItem>, k: Seq<char>) -> nat
    decreases items.len(),
{
    if items.len() == 0 {
        0
    } else {
        group_size(items.drop_last(), k) + if belongs(items.last(), k) {
            items.last().len as nat
        } else {
            0
        }
    }
}

/// The newest modification time of the files of the entry `k`, not before
/// the epoch.
pub open spec fn group_stamp(items: Seq<ScanItem>, k: Seq<char>) -> Stamp
    decreases items.len(),
{
    if items.len() == 0 {
        epoch()
    } else if belongs(items.last(), k) {
        later(group_stamp(items.drop_last(), k), items.last().modified)
    } else {
        group_stamp(items.drop_last(), k)
    }
}

/// The bytes of all counted files.
pub open spec fn counted_total(items: Seq<ScanItem>) -> nat
    decreases items.len(),
{
    if items.len() == 0 {
        0
    } else {
        counted_total(items.drop_last()) + if counted(items.last()) {
            items.last().len as nat
        } else {
            0
        }
    }
}

/// `s` is the recency order rebuilt from `items`: one slot per entry that has
/// a file, holding the entry's bytes, ordered by the entries' newest
/// modification times, oldest first.
pub open spec fn recovered(items: Seq<ScanItem>, s: Seq<Slot>) -> bool {
    &&& unique(s)
    &&& forall|k: Seq<char>| has_group(items, k) <==> exists|j: int| 0 <= j < s.len() && #[trigger] s[j].0 == k
    &&& forall|j: int| 0 <= j < s.len() ==> #[trigger] s[j].1 == group_size(items, s[j].0)
    &&& forall|a: int, b: int|
        0 <= a < b < s.len() ==> stamp_le(group_stamp(items, s[a].0), group_stamp(items, s[b].0))
}

struct Group {
    key: String,
    stamp: Stamp,
    size: u64,
}

spec fn slot_of(g: Group) -> Slot {
    (g.key@, g.size)
}

spec fn group_slots(gs: Seq<Group>) -> Seq<Slot> {
    gs.map_values(|g: Group| slot_of(g))
}

/// `gs` holds one group per entry seen in `items`, with its size and stamp.
spec fn grouped(items: Seq<ScanItem>, gs: Seq<Group>) -> bool {
    &&& forall|a: int, b: int| 0 <= a < b < gs.len() ==> gs[a].key@ != gs[b].key@
    &&& forall|a: int| 0 <= a < gs.len() ==> #[trigger] gs[a].size == group_size(items, gs[a].key@)
    &&& forall|a: int| 0 <= a < gs.len() ==> #[trigger] gs[a].stamp == group_stamp(items, gs[a].key@)
    &&& forall|k: Seq<char>| has_group(items, k) <==> exists|a: int| 0 <= a < gs.len() && #[trigger] gs[a].key@ == k
    &&& total(group_slots(gs)) == counted_total(items)
}

proof fn lemma_counted_total_prefix(items: Seq<ScanItem>, i: int)
    requires
        0 <= i <= items.len(),
    ensures
        counted_total(items.take(i)) <= counted_total(items),
    decreases items.len() - i,
{
    if i < items.len() {
        lemma_counted_total_prefix(items, i + 1);
        assert(items.take(i + 1).drop_last() =~= items.take(i));
    } else {
        assert(items.take(i) =~= items);
    }
}

/// Groups the counted files of `items` by entry, or finds the first
/// misplaced file.
fn group_items(items: &Vec<ScanItem>) -> (r: Result<Vec<Group>, Error>)
    requires
        counted_total(items@) <= u64::MAX,
    ensures
        match r {
            Ok(gs) => grouped(items@, gs@) && forall|t: int| 0 <= t < items@.len() ==> !misplaced(#[trigger] items@[t]),
            Err(e) => exists|i: int| {
                &&& 0 <= i < items@.len()
                &&& misplaced(items@[i])
                &&& forall|t: int| 0 <= t < i ==> !misplaced(#[trigger] items@[t])
                &&& e == (Error::Structure { path: items@[i].path })
            },
        },
{
    let lock = lock_file_name();
    let mut groups: Vec<Group> = Vec::new();
    let mut i: usize = 0;
    proof {
        assert(group_slots(groups@) =~= Seq::<Slot>::empty());
    }
    while i < items.len()
        invariant
            i <= items@.len(),
            lock@ == lock_name(),
            counted_total(items@) <= u64::MAX,
            forall|t: int| 0 <= t < i ==> !misplaced(#[trigger] items@[t]),
            grouped(items@.take(i as int), groups@),
        decreases items@.len() - i,
    {
        let ghost pre = items@.take(i as int);
        let ghost next = items@.take(i + 1);
        let ghost gs0 = groups@;
        proof {
            assert(next.drop_last() =~= pre);
            assert(next.last() == items@[i as int]);
            assert(next =~= pre.push(items@[i as int]));
            lemma_group_step(pre, items@[i as int]);
            lemma_counted_total_prefix(items@, i + 1);
        }
        let item = &items[i];
        let lock_file = item.parts.len() == 1 && item.parts[0] == lock;
        if item.is_dir || lock_file {
            proof {
                assert(!counted(items@[i as int]));
                assert forall|k: Seq<char>| has_group(next, k) <==> has_group(pre, k) by {
                    if has_group(next, k) {
                        let t = choose|t: int| 0 <= t < next.len() && #[trigger] belongs(next[t], k);
                        assert(pre[t] == next[t]);
                    }
                    if has_group(pre, k) {
                        let t = choose|t: int| 0 <= t < pre.len() && #[trigger] belongs(pre[t], k);
                        assert(pre[t] == next[t]);
                    }
                }
            }
        } else if item.parts.len() != 2 {
            return Err(Error::Structure { path: item.path.clone() });
        } else {
            let key = &item.parts[0];
            let mut j: usize = 0;
            while j < groups.len()
                invariant
                    j <= groups@.len(),
                    forall|a: int| 0 <= a < j ==> groups@[a].key@ != key@,
                ensures
                    j <= groups@.len(),
                    forall|a: int| 0 <= a < j ==> groups@[a].key@ != key@,
                    j < groups@.len() ==> groups@[j as int].key@ == key@,
                decreases groups@.len() - j,
            {
                if groups[j].key == *key {
                    break;
                }
                j = j + 1;
            }
            assert(belongs(items@[i as int], key@));
            proof {
                assert forall|k: Seq<char>| #[trigger] has_group(next, k) <==> has_group(pre, k) || k == key@ by {
                    if has_group(next, k) && k != key@ {
                        let t = choose|t: int| 0 <= t < next.len() && #[trigger] belongs(next[t], k);
                        assert(pre[t] == next[t]);
                    }
                    if has_group(pre, k) {
                        let t = choose|t: int| 0 <= t < pre.len() && #[trigger] belongs(pre[t], k);
                        assert(pre[t] == next[t]);
                    }
                    if k == key@ {
                        assert(belongs(next[i as int], k));
                    }
                }
            }
            if j < groups.len() {
                proof {
                    lemma_group_size_bound(next, key@);
                    assert(group_size(next, key@) == group_size(pre, key@) + item.len);
                }
                let size = groups[j].size + item.len;
                let g = Group {
                    key: key.clone(),
                    stamp: later_of(groups[j].stamp, item.modified),
                    size,
                };
                proof {
                    lemma_total_update(group_slots(gs0), j as int, slot_of(g));
                    assert(group_slots(gs0.update(j as int, g)) =~= group_slots(gs0).update(j as int, slot_of(g)));
                }
                groups.set(j, g);
                proof {
                    assert forall|k: Seq<char>| has_group(next, k) implies exists|a: int| 0 <= a < groups@.len() && #[trigger] groups@[a].key@ == k by {
                        if k == key@ {
                            assert(groups@[j as int].key@ == k);
                        } else {
                            let a = choose|a: int| 0 <= a < gs0.len() && #[trigger] gs0[a].key@ == k;
                            assert(groups@[a].key@ == k);
                        }
                    }
                    assert forall|k: Seq<char>| (exists|a: int| 0 <= a < groups@.len() && #[trigger] groups@[a].key@ == k) implies has_group(next, k) by {
                        let a = choose|a: int| 0 <= a < groups@.len() && #[trigger] groups@[a].key@ == k;
                        assert(gs0[a].key@ == k);
                    }
                }
            } else {
                let g = Group { key: key.clone(), stamp: later_of(Stamp { seconds: 0, nanos: 0 }, item.modified), size: item.len };
                proof {
                    assert(!has_group(pre, key@));
                    assert(group_size(pre, key@) == 0 && group_stamp(pre, key@) == epoch()) by {
                        lemma_absent_group(pre, key@);
                    }
                    lemma_total_push(group_slots(gs0), slot_of(g));
                    assert(group_slots(gs0.push(g)) =~= group_slots(gs0).push(slot_of(g)));
                }
                groups.push(g);
                proof {
                    assert forall|k: Seq<char>| has_group(next, k) implies exists|a: int| 0 <= a < groups@.len() && #[trigger] groups@[a].key@ == k by {
                        if k == key@ {
                            assert(groups@[j as int].key@ == k);
                        } else {
                            let a = choose|a: int| 0 <= a < gs0.len() && #[trigger] gs0[a].key@ == k;
                            assert(groups@[a].key@ == k);
                        }
                    }
                    assert forall|k: Seq<char>| (exists|a: int| 0 <= a < groups@.len() && #[trigger] groups@[a].key@ == k) implies has_group(next, k) by {
                        let a = choose|a: int| 0 <= a < groups@.len() && #[trigger] groups@[a].key@ == k;
                        if a < gs0.len() {
                            assert(gs0[a].key@ == k);
                        }
                    }
                }
            }
        }
        i = i + 1;
    }
    proof {
        assert(items@.take(i as int) =~= items@);
    }
    Ok(groups)
}

/// Some group among the first `n` has the key `k`.
spec fn key_among(gs: Seq<Group>, n: int, k: Seq<char>) -> bool {
    exists|b: int| 0 <= b < n && #[trigger] gs[b].key@ == k
}

/// The groups are ordered by stamp, oldest first.
spec fn stamps_sorted(gs: Seq<Group>) -> bool {
    forall|a: int, b: int| 0 <= a < b < gs.len() ==> stamp_le(gs[a].stamp, gs[b].stamp)
}

proof fn lemma_total_insert(s: Seq<Slot>, p: int, x: Slot)
    requires
        0 <= p <= s.len(),
    ensures
        total(s.insert(p, x)) == total(s) + x.1,
{
    assert(s.insert(p, x) =~= s.take(p) + (seq![x] + s.skip(p)));
    assert(s =~= s.take(p) + s.skip(p));
    lemma_total_concat(s.take(p), seq![x] + s.skip(p));
    lemma_total_concat(seq![x], s.skip(p));
    lemma_total_concat(s.take(p), s.skip(p));
    assert(seq![x].drop_first() =~= Seq::<Slot>::empty());
    assert(total(Seq::<Slot>::empty()) == 0);
    assert(total(seq![x]) == x.1);
}

/// Orders the groups by stamp, oldest first; among equal stamps the earlier
/// group comes first.
fn order_groups(groups: &Vec<Group>, Ghost(items): Ghost<Seq<ScanItem>>) -> (out: Vec<Group>)
    requires
        grouped(items, groups@),
    ensures
        grouped(items, out@),
        stamps_sorted(out@),
{
    let mut out: Vec<Group> = Vec::new();
    let mut j: usize = 0;
    proof {
        assert(group_slots(out@) =~= Seq::<Slot>::empty());
        assert(group_slots(groups@.take(0)) =~= Seq::<Slot>::empty());
    }
    while j < groups.len()
        invariant
            j <= groups@.len(),
            grouped(items, groups@),
            stamps_sorted(out@),
            forall|a: int, b: int| 0 <= a < b < out@.len() ==> out@[a].key@ != out@[b].key@,
            forall|a: int| 0 <= a < out@.len() ==> #[trigger] out@[a].size == group_size(items, out@[a].key@),
            forall|a: int| 0 <= a < out@.len() ==> #[trigger] out@[a].stamp == group_stamp(items, out@[a].key@),
            forall|k: Seq<char>| #[trigger] key_among(groups@, j as int, k) <==> key_among(out@, out@.len() as int, k),
            total(group_slots(out@)) == total(group_slots(groups@.take(j as int))),
        decreases groups@.len() - j,
    {
        let g = Group { key: groups[j].key.clone(), stamp: groups[j].stamp, size: groups[j].size };
        let mut p: usize = 0;
        while p < out.len() && (out[p].stamp.seconds < g.stamp.seconds || (out[p].stamp.seconds
            == g.stamp.seconds && out[p].stamp.nanos <= g.stamp.nanos))
            invariant
                p <= out@.len(),
                forall|q: int| 0 <= q < p ==> stamp_le(#[trigger] out@[q].stamp, g.stamp),
            decreases out@.len() - p,
        {
            p = p + 1;
        }
        let ghost o0 = out@;
        proof {
            assert forall|a: int| 0 <= a < o0.len() implies #[trigger] o0[a].key@ != g.key@ by {
                assert(key_among(o0, o0.len() as int, o0[a].key@));
                assert(key_among(groups@, j as int, o0[a].key@));
                let b = choose|b: int| 0 <= b < j && #[trigger] groups@[b].key@ == o0[a].key@;
                assert(groups@[b].key@ != groups@[j as int].key@);
            }
            lemma_total_insert(group_slots(o0), p as int, slot_of(g));
            assert(group_slots(o0.insert(p as int, g)) =~= group_slots(o0).insert(p as int, slot_of(g)));
            assert(group_slots(groups@.take(j + 1)) =~= group_slots(groups@.take(j as int)).push(slot_of(g)));
            lemma_total_push(group_slots(groups@.take(j as int)), slot_of(g));
        }
        out.insert(p, g);
        proof {
            let o = out@;
            assert(o == o0.insert(p as int, g));
            assert forall|a: int, b: int| 0 <= a < b < o.len() implies stamp_le(o[a].stamp, o[b].stamp) by {
                if b < p {
                } else if b == p {
                } else if a < p {
                    assert(o[b] == o0[b - 1]);
                    if p < o0.len() {
                        assert(stamp_le(o0[p as int].stamp, o0[b - 1].stamp) || b - 1 == p);
                    }
                } else if a == p {
                    assert(o[b] == o0[b - 1]);
                    assert(stamp_le(o0[p as int].stamp, o0[b - 1].stamp) || b - 1 == p);
                } else {
                    assert(o[a] == o0[a - 1] && o[b] == o0[b - 1]);
                }
            }
            assert forall|a: int, b: int| 0 <= a < b < o.len() implies o[a].key@ != o[b].key@ by {
                if a < p && b > p {
                    assert(o[b] == o0[b - 1]);
                } else if a > p {
                    assert(o[a] == o0[a - 1] && o[b] == o0[b - 1]);
                } else if a == p {
                    assert(o[b] == o0[b - 1]);
                }
            }
            assert forall|a: int| 0 <= a < o.len() implies #[trigger] o[a].size == group_size(items, o[a].key@)
                && o[a].stamp == group_stamp(items, o[a].key@) by {
                if a > p {
                    assert(o[a] == o0[a - 1]);
                }
            }
            assert forall|k: Seq<char>| #[trigger] key_among(groups@, j + 1, k) implies key_among(o, o.len() as int, k) by {
                let b = choose|b: int| 0 <= b < j + 1 && #[trigger] groups@[b].key@ == k;
                if b == j {
                    assert(o[p as int].key@ == k);
                } else {
                    assert(key_among(groups@, j as int, k));
                    assert(key_among(o0, o0.len() as int, k));
                    let a = choose|a: int| 0 <= a < o0.len() && #[trigger] o0[a].key@ == k;
                    if a < p {
                        assert(o[a].key@ == k);
                    } else {
                        assert(o[a + 1].key@ == k);
                    }
                }
            }
            assert forall|k: Seq<char>| #[trigger] key_among(o, o.len() as int, k) implies key_among(groups@, j + 1, k) by {
                let a = choose|a: int| 0 <= a < o.len() && #[trigger] o[a].key@ == k;
                if a == p {
                    assert(groups@[j as int].key@ == k);
                } else {
                    if a < p {
                        assert(o0[a].key@ == k);
                        assert(key_among(o0, o0.len() as int, k));
                    } else {
                        assert(o0[a - 1].key@ == k);
                        assert(key_among(o0, o0.len() as int, k));
                    }
                    assert(key_among(groups@, j as int, k));
                    let b = choose|b: int| 0 <= b < j && #[trigger] groups@[b].key@ == k;
                    assert(groups@[b].key@ == k);
                }
            }
        }
        j = j + 1;
    }
    proof {
        assert(groups@.take(j as int) =~= groups@);
        assert forall|k: Seq<char>| has_group(items, k) <==> exists|a: int| 0 <= a < out@.len() && #[trigger] out@[a].key@ == k by {
            if has_group(items, k) {
                let b = choose|b: int| 0 <= b < groups@.len() && #[trigger] groups@[b].key@ == k;
                assert(key_among(groups@, j as int, k));
                assert(key_among(out@, out@.len() as int, k));
            }
            if exists|a: int| 0 <= a < out@.len() && #[trigger] out@[a].key@ == k {
                assert(key_among(out@, out@.len() as int, k));
                assert(key_among(groups@, j as int, k));
                let b = choose|b: int| 0 <= b < j && #[trigger] groups@[b].key@ == k;
                assert(groups@[b].key@ == k);
            }
        }
    }
    out
}

/// Rebuilds the recency index of a cache root from the objects that a walk
/// of the root found. Directories and the lock file are skipped; every
/// other object must be a file `<key>/<name>`, else the first one that is
/// not is reported as `Structure`. Entries are ordered by the newest
/// modification time of their files, oldest first.
pub fn recover(items: &Vec<ScanItem>, capacity: u64) -> (r: Result<LruIndex, Error>)
    requires
        counted_total(items@) <= u64::MAX,
    ensures
        r is Err <==> exists|i: int| 0 <= i < items@.len() && #[trigger] misplaced(items@[i]),
        match r {
            Ok(index) => {
                &&& index.wf()
                &&& index.spec_capacity() == capacity
                &&& recovered(items@, index@)
            },
            Err(e) => exists|i: int| {
                &&& 0 <= i < items@.len()
                &&& misplaced(items@[i])
                &&& forall|t: int| 0 <= t < i ==> !misplaced(#[trigger] items@[t])
                &&& e == (Error::Structure { path: items@[i].path })
            },
        },
{
    let groups = match group_items(items) {
        Ok(gs) => gs,
        Err(e) => return Err(e),
    };
    let out = order_groups(&groups, Ghost(items@));
    let mut index = LruIndex::new(capacity);
    let mut t: usize = 0;
    proof {
        assert(group_slots(out@).take(0) =~= Seq::<Slot>::empty());
    }
    while t < out.len()
        invariant
            t <= out@.len(),
            grouped(items@, out@),
            stamps_sorted(out@),
            counted_total(items@) <= u64::MAX,
            index.wf(),
            index.spec_capacity() == capacity,
            index@ == group_slots(out@).take(t as int),
        decreases out@.len() - t,
    {
        let ghost all = group_slots(out@);
        proof {
            lemma_find(index@, out@[t as int].key@);
            if let Some(q) = find(index@, out@[t as int].key@) {
                assert(index@[q] == slot_of(out@[q]));
            }
            assert(all =~= all.take(t + 1) + all.skip(t + 1));
            lemma_total_concat(all.take(t + 1), all.skip(t + 1));
            assert(all.take(t + 1) =~= all.take(t as int).push(all[t as int]));
            lemma_total_push(all.take(t as int), all[t as int]);
        }
        index.push_new(&out[t].key, out[t].size);
        proof {
            assert(index@ =~= all.take(t + 1));
        }
        t = t + 1;
    }
    proof {
        let s = index@;
        assert(s =~= group_slots(out@));
        assert forall|a: int| 0 <= a < s.len() implies #[trigger] s[a] == slot_of(out@[a]) by {}
        assert forall|k: Seq<char>| has_group(items@, k) <==> exists|j: int| 0 <= j < s.len() && #[trigger] s[j].0 == k by {
            if has_group(items@, k) {
                let a = choose|a: int| 0 <= a < out@.len() && #[trigger] out@[a].key@ == k;
                assert(s[a].0 == k);
            }
            if exists|j: int| 0 <= j < s.len() && #[trigger] s[j].0 == k {
                let j = choose|j: int| 0 <= j < s.len() && #[trigger] s[j].0 == k;
                assert(out@[j].key@ == k);
            }
        }
        assert forall|a: int, b: int| 0 <= a < b < s.len() implies stamp_le(
            group_stamp(items@, s[a].0),
            group_stamp(items@, s[b].0),
        ) by {
            assert(s[a] == slot_of(out@[a]) && s[b] == slot_of(out@[b]));
            assert(out@[a].stamp == group_stamp(items@, out@[a].key@));
            assert(out@[b].stamp == group_stamp(items@, out@[b].key@));
        }
    }
    Ok(index)
}

/// Recency survives a restart: in an order rebuilt from a scan, an entry
/// whose files are all older than the newest file of another entry comes
/// before it, and so is evicted before it.
pub proof fn recency_survives_restart(items: Seq<ScanItem>, s: Seq<Slot>, a: Seq<char>, b: Seq<char>)
    requires
        recovered(items, s),
        find(s, a) is Some,
        find(s, b) is Some,
        !stamp_le(group_stamp(items, b), group_stamp(items, a)),
    ensures
        find(s, a)->Some_0 < find(s, b)->Some_0,
{
    lemma_find(s, a);
    lemma_find(s, b);
    let i = find(s, a)->Some_0;
    let j = find(s, b)->Some_0;
    if j < i {
        assert(stamp_le(group_stamp(items, s[j].0), group_stamp(items, s[i].0)));
    }
}

proof fn lemma_group_step(pre: Seq<ScanItem>, f: ScanItem)
    ensures
        forall|k: Seq<char>| #[trigger] group_size(pre.push(f), k) == group_size(pre, k) + if belongs(f, k) {
            f.len as nat
        } else {
            0
        },
        forall|k: Seq<char>| #[trigger] group_stamp(pre.push(f), k) == if belongs(f, k) {
            later(group_stamp(pre, k), f.modified)
        } else {
            group_stamp(pre, k)
        },
{
    assert(pre.push(f).drop_last() =~= pre);
}

proof fn lemma_group_size_bound(items: Seq<ScanItem>, k: Seq<char>)
    ensures
        group_size(items, k) <= counted_total(items),
    decreases items.len(),
{
    if items.len() > 0 {
        lemma_group_size_bound(items.drop_last(), k);
    }
}

proof fn lemma_absent_group(items: Seq<ScanItem>, k: Seq<char>)
    requires
        !has_group(items, k),
    ensures
        group_size(items, k) == 0,
        group_stamp(items, k) == epoch(),
    decreases items.len(),
{
    if items.len() > 0 {
        let p = items.drop_last();
        assert forall|t: int| 0 <= t < p.len() implies !#[trigger] belongs(p[t], k) by {
            assert(p[t] == items[t]);
        }
        lemma_absent_group(p, k);
        assert(!belongs(items[items.len() - 1], k));
    }
}

} // verus!
