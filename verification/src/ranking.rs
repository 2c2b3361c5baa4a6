//! Bounded best-K ranker: keeps the best `capacity` entries seen so far,
//! sorted best-first, using O(capacity) memory over an unbounded stream.
use vstd::prelude::*;

use crate::better;
use crate::Direction;
use crate::WalkError;
use vstd::multiset::Multiset;

verus! {

/// One ranked candidate: a path and the scalar key it is ranked by.
/// The key is a point in time (nanoseconds) or a byte count, depending
/// on the ranking criterion; the ranker never looks past its order.
#[derive(Clone, Debug)]
pub struct RankedEntry {
    pub path: String,
    pub key: u128,
}

impl RankedEntry {
    /// The entry as the pair of plain values the contracts speak about.
    pub open spec fn view_pair(self) -> (Seq<char>, u128) {
        (self.path@, self.key)
    }
}

/// The views of a sequence of entries.
pub open spec fn entry_views(s: Seq<RankedEntry>) -> Seq<(Seq<char>, u128)> {
    s.map_values(|e: RankedEntry| e.view_pair())
}

/// The ranking keys of a sequence of entries.
pub open spec fn key_seq(s: Seq<RankedEntry>) -> Seq<u128> {
    s.map_values(|e: RankedEntry| e.key)
}

/// Best entry first; among kept entries no later one is strictly better.
pub open spec fn sorted_best_first(d: Direction, s: Seq<RankedEntry>) -> bool {
    forall|i: int, j: int|
        0 <= i < j < s.len() ==> !better(d, #[trigger] s[j].key, #[trigger] s[i].key)
}

/// The position where a key strictly better than the current worst is
/// inserted: the first index holding a strictly worse key.
pub open spec fn insertion_point(d: Direction, s: Seq<(Seq<char>, u128)>, k: u128) -> int
    decreases s.len(),
{
    if s.len() == 0 {
        0
    } else if better(d, k, s[0].1) {
        0
    } else {
        1 + insertion_point(d, s.drop_first(), k)
    }
}

/// What one successful `consider` of `(path, k)` does to the kept sequence:
/// insert unconditionally while empty; a candidate not strictly better than
/// the current worst is appended only while there is free capacity (so ties
/// are kept first-seen-first); a strictly better candidate lands at the
/// first position it beats, evicting the worst when the ranker is full.
pub open spec fn spec_consider(
    d: Direction,
    cap: nat,
    s: Seq<(Seq<char>, u128)>,
    path: Seq<char>,
    k: u128,
) -> Seq<(Seq<char>, u128)> {
    if s.len() == 0 {
        seq![(path, k)]
    } else if !better(d, k, s.last().1) {
        if s.len() < cap {
            s.push((path, k))
        } else {
            s
        }
    } else {
        let i = insertion_point(d, s, k);
        if s.len() == cap {
            s.drop_last().insert(i, (path, k))
        } else {
            s.insert(i, (path, k))
        }
    }
}

/// Maintains the `capacity` best entries seen so far for one criterion,
/// sorted best-first. `dropped` is the ghost record of the keys of the
/// successfully considered candidates that are no longer kept.
pub struct Ranking {
    pub entries: Vec<RankedEntry>,
    pub capacity: usize,
    pub direction: Direction,
    pub dropped: Ghost<Seq<u128>>,
}

impl Ranking {
    /// The multiset of keys of every successfully considered candidate.
    pub open spec fn considered(self) -> Multiset<u128> {
        key_seq(self.entries@).to_multiset().add(self.dropped@.to_multiset())
    }

    /// Invariant at every observation point: capacity is fixed and at least
    /// one, at most `capacity` entries are kept, they are sorted best-first,
    /// keys are only dropped while the ranker is full, and no dropped key is
    /// strictly better than any kept one.
    pub open spec fn wf(self) -> bool {
        &&& self.capacity >= 1
        &&& self.entries@.len() <= self.capacity
        &&& sorted_best_first(self.direction, self.entries@)
        &&& (self.dropped@.len() > 0 ==> self.entries@.len() == self.capacity)
        &&& (forall|i: int, j: int|
            0 <= i < self.entries@.len() && 0 <= j < self.dropped@.len() ==> !better(
                self.direction,
                #[trigger] self.dropped@[j],
                #[trigger] self.entries@[i].key,
            ))
    }

    /// An empty ranking for one run. Capacity is validated by the
    /// configuration layer and assumed here, as everywhere in the core.
    pub fn new(capacity: usize, direction: Direction) -> (r: Ranking)
        requires
            capacity >= 1,
        ensures
            r.wf(),
            r.capacity == capacity,
            r.direction == direction,
            r.entries@.len() == 0,
            r.considered() == Multiset::<u128>::empty(),
    {
        let r = Ranking {
            entries: Vec::with_capacity(capacity),
            capacity,
            direction,
            dropped: Ghost(Seq::empty()),
        };
        proof {
            broadcast use vstd::seq_lib::group_to_multiset_ensures;
            broadcast use vstd::multiset::group_multiset_axioms;

            assert(key_seq(r.entries@) =~= Seq::<u128>::empty());
            vstd::multiset::lemma_multiset_empty_len(key_seq(r.entries@).to_multiset());
            vstd::multiset::lemma_multiset_empty_len(r.dropped@.to_multiset());
            assert(r.considered() =~= Multiset::<u128>::empty());
        }
        r
    }

    /// Takes one candidate. Without an extracted metric the candidate is
    /// skipped and reported, the ranking untouched; with one, the kept
    /// sequence evolves exactly by `spec_consider` and the key joins the
    /// considered multiset.
    pub fn consider(&mut self, path: String, metric: Option<u128>) -> (r: Result<(), WalkError>)
        requires
            old(self).wf(),
        ensures
            final(self).wf(),
            final(self).capacity == old(self).capacity,
            final(self).direction == old(self).direction,
            metric is None ==> {
                &&& *final(self) == *old(self)
                &&& (r matches Err(WalkError::MetricUnavailable(p)) && p@ == path@)
            },
            metric matches Some(k) ==> {
                &&& r is Ok
                &&& entry_views(final(self).entries@) == spec_consider(
                    old(self).direction,
                    old(self).capacity as nat,
                    entry_views(old(self).entries@),
                    path@,
                    k,
                )
                &&& final(self).considered() == old(self).considered().insert(k)
            },
    {
        let key = match metric {
            None => { return Err(WalkError::MetricUnavailable(path)); },
            Some(k) => k,
        };
        let ghost pre = *self;
        let ghost views = entry_views(pre.entries@);
        proof {
            lemma_entry_views(pre.entries@);
        }
        let entry = RankedEntry { path, key };
        let n = self.entries.len();
        if n == 0 {
            self.entries.push(entry);
            proof {
                lemma_considered_push(pre, *self, entry, key);
                lemma_entry_views(self.entries@);
                assert(entry_views(self.entries@) =~~= spec_consider(
                    pre.direction,
                    pre.capacity as nat,
                    views,
                    entry.path@,
                    key,
                ));
            }
            return Ok(());
        }
        let worst = self.entries[n - 1].key;
        assert(worst == views.last().1);
        if !better_exec(self.direction, key, worst) {
            proof {
                assert(forall|j: int|
                    0 <= j < n ==> !better(pre.direction, key, #[trigger] pre.entries@[j].key));
            }
            if n < self.capacity {
                self.entries.push(entry);
                proof {
                    lemma_considered_push(pre, *self, entry, key);
                    lemma_entry_views(self.entries@);
                    assert(entry_views(self.entries@) =~~= spec_consider(
                        pre.direction,
                        pre.capacity as nat,
                        views,
                        entry.path@,
                        key,
                    ));
                }
            } else {
                self.dropped = Ghost(self.dropped@.push(key));
                proof {
                    lemma_considered_discard(pre, *self, key);
                    assert(entry_views(self.entries@) =~~= spec_consider(
                        pre.direction,
                        pre.capacity as nat,
                        views,
                        entry.path@,
                        key,
                    ));
                }
            }
            return Ok(());
        }
        // The candidate is strictly better than the worst kept entry: find
        // the first position it beats; the scan must stop by the last index.
        let mut i: usize = 0;
        while i < n && !better_exec(self.direction, key, self.entries[i].key)
            invariant
                *self == pre,
                pre.wf(),
                n == self.entries@.len(),
                0 <= i <= n,
                better(self.direction, key, self.entries@[n - 1].key),
                forall|j: int|
                    0 <= j < i ==> !better(self.direction, key, #[trigger] self.entries@[j].key),
            decreases n - i,
        {
            i += 1;
        }
        assert(i < n);
        assert(better(pre.direction, key, pre.entries@[i as int].key));
        proof {
            lemma_insertion_point_unique(pre.direction, views, key, i as int);
            // No kept entry from the insertion point on is better than the
            // candidate, and none before it is beaten by the candidate.
            assert(forall|j: int|
                i <= j < n ==> !better(pre.direction, #[trigger] pre.entries@[j].key, key));
        }
        if n == self.capacity {
            let evicted = self.entries.pop().unwrap();
            self.dropped = Ghost(self.dropped@.push(evicted.key));
            self.entries.insert(i, entry);
            proof {
                pre.entries@.drop_last().insert_ensures(i as int, entry);
                lemma_entry_views(self.entries@);
                lemma_considered_evict(pre, *self, i as int, entry, key);
                assert(entry_views(self.entries@) =~~= spec_consider(
                    pre.direction,
                    pre.capacity as nat,
                    views,
                    entry.path@,
                    key,
                ));
            }
        } else {
            self.entries.insert(i, entry);
            proof {
                pre.entries@.insert_ensures(i as int, entry);
                lemma_entry_views(self.entries@);
                lemma_considered_insert(pre, *self, i as int, entry, key);
                assert(entry_views(self.entries@) =~~= spec_consider(
                    pre.direction,
                    pre.capacity as nat,
                    views,
                    entry.path@,
                    key,
                ));
            }
        }
        Ok(())
    }

    /// Terminal operation: hands back the kept entries, best first.
    pub fn finish(self) -> (r: Vec<RankedEntry>)
        requires
            self.wf(),
        ensures
            r@ == self.entries@,
            r@.len() <= self.capacity,
            sorted_best_first(self.direction, r@),
    {
        self.entries
    }
}

/// The kept keys against everything considered: they are never more than
/// fit, never fewer than were available, and nothing set aside beats them.
proof fn lemma_kept_props(r: Ranking)
    requires
        r.wf(),
    ensures
        key_seq(r.entries@).to_multiset().subset_of(r.considered()),
        r.entries@.len() == vstd::math::min(r.capacity as int, r.considered().len() as int),
        forall|x: u128, y: u128|
            key_seq(r.entries@).to_multiset().contains(x) && r.considered().sub(
                key_seq(r.entries@).to_multiset(),
            ).contains(y) ==> !better(r.direction, y, x),
{
    broadcast use vstd::seq_lib::group_to_multiset_ensures;
    broadcast use vstd::multiset::group_multiset_axioms;

    lemma_entry_views(r.entries@);
    let kept = key_seq(r.entries@).to_multiset();
    let dropped = r.dropped@.to_multiset();
    assert(kept.len() == r.entries@.len());
    assert(dropped.len() == r.dropped@.len());
    assert(r.considered().sub(kept) =~= dropped);
    assert forall|x: u128, y: u128|
        kept.contains(x) && r.considered().sub(kept).contains(y) implies !better(
        r.direction,
        y,
        x,
    ) by {
        assert(key_seq(r.entries@).contains(x));
        assert(r.dropped@.contains(y));
        let i = choose|i: int| 0 <= i < key_seq(r.entries@).len() && key_seq(r.entries@)[i] == x;
        let j = choose|j: int| 0 <= j < r.dropped@.len() && r.dropped@[j] == y;
        assert(r.entries@[i].key == x);
        assert(!better(r.direction, r.dropped@[j], r.entries@[i].key));
    }
}

/// Law: after any sequence of `consider` calls, the ranker keeps exactly
/// min(capacity, number of successfully considered candidates) entries,
/// sorted best-first, and no key among the considered ones that it let go
/// is strictly better than any key it kept: the kept entries are a true
/// top-K of everything successfully considered.
pub proof fn lemma_top_k(r: Ranking)
    requires
        r.wf(),
    ensures
        r.entries@.len() == vstd::math::min(r.capacity as int, r.considered().len() as int),
        sorted_best_first(r.direction, r.entries@),
        key_seq(r.entries@).to_multiset().subset_of(r.considered()),
        forall|x: u128, y: u128|
            key_seq(r.entries@).to_multiset().contains(x) && r.considered().sub(
                key_seq(r.entries@).to_multiset(),
            ).contains(y) ==> !better(r.direction, y, x),
{
    lemma_kept_props(r);
}

/// Every non-empty multiset of keys has a best element under either
/// direction: one that no element of the multiset strictly beats.
proof fn lemma_best_exists(d: Direction, m: Multiset<u128>)
    requires
        m.len() > 0,
    ensures
        exists|v: u128|
            m.contains(v) && (forall|x: u128| m.contains(x) ==> !better(d, x, v)),
    decreases m.len(),
{
    broadcast use vstd::multiset::group_multiset_axioms;

    let v0 = m.choose();
    assert(m.contains(v0));
    let m1 = m.remove(v0);
    assert(Multiset::singleton(v0).subset_of(m));
    assert(m1.len() == m.len() - 1);
    if m1.len() == 0 {
        vstd::multiset::lemma_multiset_empty_len(m1);
        assert forall|x: u128| m.contains(x) implies !better(d, x, v0) by {
            assert(m1.count(x) == 0);
        }
        assert(m.contains(v0) && (forall|x: u128| m.contains(x) ==> !better(d, x, v0)));
    } else {
        lemma_best_exists(d, m1);
        let v1 = choose|v: u128|
            m1.contains(v) && (forall|x: u128| m1.contains(x) ==> !better(d, x, v));
        let best: u128 = if better(d, v0, v1) {
            v0
        } else {
            v1
        };
        assert(m.contains(best));
        assert forall|x: u128| m.contains(x) implies !better(d, x, best) by {
            if x != v0 {
                assert(m1.contains(x));
            }
        }
        assert(m.contains(best) && (forall|x: u128| m.contains(x) ==> !better(d, x, best)));
    }
}

/// A top-K selection out of a multiset of keys is unique as a multiset:
/// two sub-multisets of equal size, neither of which leaves behind a key
/// strictly better than one it kept, are one and the same.
proof fn lemma_top_k_unique(d: Direction, a: Multiset<u128>, b: Multiset<u128>, m: Multiset<u128>)
    requires
        a.subset_of(m),
        b.subset_of(m),
        a.len() == b.len(),
        forall|x: u128, y: u128| a.contains(x) && m.sub(a).contains(y) ==> !better(d, y, x),
        forall|x: u128, y: u128| b.contains(x) && m.sub(b).contains(y) ==> !better(d, y, x),
    ensures
        a == b,
    decreases a.len(),
{
    broadcast use vstd::multiset::group_multiset_axioms;

    if a.len() == 0 {
        vstd::multiset::lemma_multiset_empty_len(a);
        vstd::multiset::lemma_multiset_empty_len(b);
        assert(a =~= b);
    } else {
        assert(a.subset_of(m) ==> m.sub(a).len() == m.len() - a.len());
        assert(m.len() > 0);
        lemma_best_exists(d, m);
        let v = choose|v: u128|
            m.contains(v) && (forall|x: u128| m.contains(x) ==> !better(d, x, v));
        assert(a.contains(v)) by {
            if a.count(v) == 0 {
                let x0 = a.choose();
                assert(a.contains(x0));
                assert(m.sub(a).contains(v));
                assert(!better(d, v, x0));
                assert(m.contains(x0));
                assert(!better(d, x0, v));
                assert(x0 == v);
                assert(false);
            }
        }
        assert(b.contains(v)) by {
            if b.count(v) == 0 {
                let x0 = b.choose();
                assert(b.contains(x0));
                assert(m.sub(b).contains(v));
                assert(!better(d, v, x0));
                assert(m.contains(x0));
                assert(!better(d, x0, v));
                assert(x0 == v);
                assert(false);
            }
        }
        let a1 = a.remove(v);
        let b1 = b.remove(v);
        let m1 = m.remove(v);
        assert(Multiset::singleton(v).subset_of(a));
        assert(Multiset::singleton(v).subset_of(b));
        assert(Multiset::singleton(v).subset_of(m));
        assert(a1.len() == a.len() - 1);
        assert(b1.len() == b.len() - 1);
        assert(m1.sub(a1) =~= m.sub(a));
        assert(m1.sub(b1) =~= m.sub(b));
        assert forall|x: u128, y: u128|
            a1.contains(x) && m1.sub(a1).contains(y) implies !better(d, y, x) by {
            assert(a.contains(x));
            assert(m.sub(a).contains(y));
        }
        assert forall|x: u128, y: u128|
            b1.contains(x) && m1.sub(b1).contains(y) implies !better(d, y, x) by {
            assert(b.contains(x));
            assert(m.sub(b).contains(y));
        }
        lemma_top_k_unique(d, a1, b1, m1);
        assert forall|x: u128| a.count(x) == b.count(x) by {
            if x == v {
                assert(a1.count(v) == a.count(v) - 1);
                assert(b1.count(v) == b.count(v) - 1);
            } else {
                assert(Multiset::singleton(v).count(x) == 0);
                assert(a1.count(x) == a.count(x));
                assert(b1.count(x) == b.count(x));
            }
        }
        assert(a =~= b);
    }
}

/// Law: the kept keys do not depend on the order in which the candidates
/// arrived. Two rankers of the same capacity and direction whose
/// successfully considered keys form the same multiset keep the same
/// multiset of keys, however differently those keys were interleaved; and
/// since the display order is fixed by the direction alone, the two final
/// key sequences agree outright.
pub proof fn lemma_order_independent(r1: Ranking, r2: Ranking)
    requires
        r1.wf(),
        r2.wf(),
        r1.capacity == r2.capacity,
        r1.direction == r2.direction,
        r1.considered() == r2.considered(),
    ensures
        key_seq(r1.entries@).to_multiset() == key_seq(r2.entries@).to_multiset(),
        key_seq(r1.entries@) == key_seq(r2.entries@),
{
    broadcast use vstd::seq_lib::group_to_multiset_ensures;
    broadcast use vstd::multiset::group_multiset_axioms;

    lemma_kept_props(r1);
    lemma_kept_props(r2);
    lemma_entry_views(r1.entries@);
    lemma_entry_views(r2.entries@);
    lemma_top_k_unique(
        r1.direction,
        key_seq(r1.entries@).to_multiset(),
        key_seq(r2.entries@).to_multiset(),
        r1.considered(),
    );
    let d = r1.direction;
    let leq = (|x: u128, y: u128| !better(d, y, x));
    assert(vstd::relations::total_ordering(leq)) by {
        assert(vstd::relations::reflexive(leq));
        assert(vstd::relations::antisymmetric(leq));
        assert(vstd::relations::transitive(leq));
        assert(vstd::relations::strongly_connected(leq));
    }
    assert(vstd::relations::sorted_by(key_seq(r1.entries@), leq));
    assert(vstd::relations::sorted_by(key_seq(r2.entries@), leq));
    vstd::seq_lib::lemma_sorted_unique(key_seq(r1.entries@), key_seq(r2.entries@), leq);
}

/// Law: a ranker of capacity one keeps exactly the single best-seen key,
/// or nothing at all when no candidate was successfully considered.
pub proof fn lemma_capacity_one(r: Ranking)
    requires
        r.wf(),
        r.capacity == 1,
    ensures
        r.considered().len() == 0 ==> r.entries@.len() == 0,
        r.considered().len() > 0 ==> r.entries@.len() == 1 && (forall|y: u128|
            r.considered().contains(y) ==> !better(r.direction, y, r.entries@[0].key)),
{
    broadcast use vstd::seq_lib::group_to_multiset_ensures;
    broadcast use vstd::multiset::group_multiset_axioms;

    lemma_kept_props(r);
    lemma_entry_views(r.entries@);
    if r.considered().len() > 0 {
        let kept = key_seq(r.entries@).to_multiset();
        assert forall|y: u128| r.considered().contains(y) implies !better(
            r.direction,
            y,
            r.entries@[0].key,
        ) by {
            if kept.contains(y) {
                assert(key_seq(r.entries@).contains(y));
                assert(y == r.entries@[0].key);
            } else {
                assert(r.considered().sub(kept).contains(y));
                assert(kept.contains(r.entries@[0].key)) by {
                    assert(key_seq(r.entries@)[0] == r.entries@[0].key);
                    assert(key_seq(r.entries@).contains(r.entries@[0].key));
                }
            }
        }
    }
}

/// Decides `better` at run time.
pub fn better_exec(d: Direction, a: u128, b: u128) -> (r: bool)
    ensures
        r == better(d, a, b),
{
    match d {
        Direction::GreaterIsBetter => a > b,
        Direction::LesserIsBetter => a < b,
    }
}

/// The view sequence of a sequence of entries is just as long.
pub broadcast proof fn lemma_entry_views_len(s: Seq<RankedEntry>)
    ensures
        #[trigger] entry_views(s).len() == s.len(),
{
}

/// The view sequence holds, position by position, the path view and key
/// of the entry there.
pub broadcast proof fn lemma_entry_views_index(s: Seq<RankedEntry>, i: int)
    requires
        0 <= i < s.len(),
    ensures
        #[trigger] entry_views(s)[i] == (s[i].path@, s[i].key),
{
}

/// The key sequence of a sequence of entries is just as long.
pub broadcast proof fn lemma_key_seq_len(s: Seq<RankedEntry>)
    ensures
        #[trigger] key_seq(s).len() == s.len(),
{
}

/// The key sequence holds, position by position, the key of the entry
/// there.
pub broadcast proof fn lemma_key_seq_index(s: Seq<RankedEntry>, i: int)
    requires
        0 <= i < s.len(),
    ensures
        #[trigger] key_seq(s)[i] == s[i].key,
{
}

/// How the view and key sequences of `entry_views` and `key_seq` relate
/// to the entries they were taken from.
pub broadcast group group_entry_views {
    lemma_entry_views_len,
    lemma_entry_views_index,
    lemma_key_seq_len,
    lemma_key_seq_index,
}

/// Length and indexing of the view sequences of a sequence of entries.
proof fn lemma_entry_views(s: Seq<RankedEntry>)
    ensures
        entry_views(s).len() == s.len(),
        key_seq(s).len() == s.len(),
        forall|i: int|
            0 <= i < s.len() ==> #[trigger] entry_views(s)[i] == (s[i].path@, s[i].key),
        forall|i: int| 0 <= i < s.len() ==> #[trigger] key_seq(s)[i] == s[i].key,
{
}

/// The first index holding a key strictly worse than `k` is the insertion
/// point, whatever scan found it.
proof fn lemma_insertion_point_unique(d: Direction, s: Seq<(Seq<char>, u128)>, k: u128, i: int)
    requires
        0 <= i < s.len(),
        better(d, k, s[i].1),
        forall|j: int| 0 <= j < i ==> !better(d, k, #[trigger] s[j].1),
    ensures
        insertion_point(d, s, k) == i,
    decreases i,
{
    if i == 0 {
    } else {
        assert(!better(d, k, s[0].1));
        assert(forall|j: int| 0 <= j < s.len() - 1 ==> #[trigger] s.drop_first()[j] == s[j + 1]);
        lemma_insertion_point_unique(d, s.drop_first(), k, i - 1);
    }
}

/// Inserting anywhere adds exactly one occurrence to the multiset.
proof fn lemma_to_multiset_insert<A>(s: Seq<A>, i: int, x: A)
    requires
        0 <= i <= s.len(),
    ensures
        s.insert(i, x).to_multiset() =~= s.to_multiset().insert(x),
{
    broadcast use vstd::seq_lib::group_to_multiset_ensures;
    broadcast use vstd::multiset::group_multiset_axioms;

    let t = s.insert(i, x);
    s.insert_ensures(i, x);
    assert(t.remove(i) =~= s);
    assert(t[i] == x);
    assert(t.remove(i).to_multiset() =~= t.to_multiset().remove(x));
    assert(t.to_multiset().count(x) > 0) by {
        assert(t.contains(x));
    }
    assert(t.to_multiset() =~= s.to_multiset().insert(x));
}

/// A `consider` that appends the candidate adds its key to the considered
/// multiset.
proof fn lemma_considered_push(pre: Ranking, post: Ranking, e: RankedEntry, k: u128)
    requires
        e.key == k,
        post.entries@ == pre.entries@.push(e),
        post.dropped@ == pre.dropped@,
    ensures
        post.considered() == pre.considered().insert(k),
{
    broadcast use vstd::seq_lib::group_to_multiset_ensures;
    broadcast use vstd::multiset::group_multiset_axioms;

    assert(key_seq(post.entries@) =~= key_seq(pre.entries@).push(k));
    assert(post.considered() =~= pre.considered().insert(k));
}

/// A `consider` that discards the candidate adds its key to the considered
/// multiset all the same.
proof fn lemma_considered_discard(pre: Ranking, post: Ranking, k: u128)
    requires
        post.entries@ == pre.entries@,
        post.dropped@ == pre.dropped@.push(k),
    ensures
        post.considered() == pre.considered().insert(k),
{
    broadcast use vstd::seq_lib::group_to_multiset_ensures;
    broadcast use vstd::multiset::group_multiset_axioms;

    assert(post.considered() =~= pre.considered().insert(k));
}

/// A `consider` that inserts the candidate while there is free capacity
/// adds its key to the considered multiset.
proof fn lemma_considered_insert(pre: Ranking, post: Ranking, i: int, e: RankedEntry, k: u128)
    requires
        e.key == k,
        0 <= i <= pre.entries@.len(),
        post.entries@ == pre.entries@.insert(i, e),
        post.dropped@ == pre.dropped@,
    ensures
        post.considered() == pre.considered().insert(k),
{
    broadcast use vstd::seq_lib::group_to_multiset_ensures;
    broadcast use vstd::multiset::group_multiset_axioms;

    lemma_entry_views(pre.entries@);
    lemma_entry_views(post.entries@);
    pre.entries@.insert_ensures(i, e);
    assert(key_seq(post.entries@) =~= key_seq(pre.entries@).insert(i, k));
    lemma_to_multiset_insert(key_seq(pre.entries@), i, k);
    assert(post.considered() =~= pre.considered().insert(k));
}

/// A `consider` that evicts the worst kept entry moves that entry's key to
/// the dropped record and adds the candidate's key to the considered
/// multiset.
proof fn lemma_considered_evict(pre: Ranking, post: Ranking, i: int, e: RankedEntry, k: u128)
    requires
        e.key == k,
        pre.entries@.len() > 0,
        0 <= i <= pre.entries@.len() - 1,
        post.entries@ == pre.entries@.drop_last().insert(i, e),
        post.dropped@ == pre.dropped@.push(pre.entries@.last().key),
    ensures
        post.considered() == pre.considered().insert(k),
{
    broadcast use vstd::seq_lib::group_to_multiset_ensures;
    broadcast use vstd::multiset::group_multiset_axioms;

    lemma_entry_views(pre.entries@);
    lemma_entry_views(post.entries@);
    let ks = key_seq(pre.entries@);
    let m = pre.entries@.len() - 1;
    let w = pre.entries@.last().key;
    pre.entries@.drop_last().insert_ensures(i, e);
    assert(key_seq(pre.entries@.drop_last()) =~= ks.remove(m)) by {
        lemma_entry_views(pre.entries@.drop_last());
        ks.remove_ensures(m);
    }
    assert(key_seq(post.entries@) =~= ks.remove(m).insert(i, k)) by {
        lemma_entry_views(pre.entries@.drop_last());
        ks.remove(m).insert_ensures(i, k);
    }
    lemma_to_multiset_insert(ks.remove(m), i, k);
    assert(ks.remove(m).to_multiset() =~= ks.to_multiset().remove(w));
    assert(ks.to_multiset().count(w) > 0) by {
        assert(ks[m] == w);
        assert(ks.contains(w));
    }
    assert(post.considered() =~= pre.considered().insert(k));
}

} // verus!
