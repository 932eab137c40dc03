use vstd::prelude::*;

use vstd::arithmetic::div_mod::{lemma_mod_multiples_vanish, lemma_small_mod};

use crate::key::TableKey;
use crate::probe::{is_pow2, lemma_probe_covers, lemma_probe_step, probe};
use crate::slot::{
    count_kind, lemma_count_all_of, lemma_count_total, lemma_count_update, lemma_free_exists,
    lemma_steps_compose, steps_allowed, Slot, SlotKind,
};

verus! {

/// Largest number of slots a table may have.
pub const MAX_SLOTS: usize = 0x8000_0000;

/// Slot after `idx`, the slot at step `d` of a probe sequence, at step `d + 1`.
fn next_probe(idx: usize, d: usize, n: usize) -> (r: usize)
    requires
        idx < n,
        d < n,
        n <= MAX_SLOTS,
    ensures
        r == (idx + d + 1) % (n as int),
        r < n,
{
    let s = idx + d + 1;
    if s < n {
        proof {
            lemma_small_mod(s as nat, n as nat);
        }
        s
    } else {
        proof {
            lemma_small_mod((s - n) as nat, n as nat);
            lemma_mod_multiples_vanish(1, s - n, n as int);
        }
        s - n
    }
}

/// The live pairs among the first `i` slots, in slot order.
pub open spec fn entries_upto<K, V>(s: Seq<Slot<K, V>>, i: int) -> Seq<(K, V)>
    decreases i,
{
    if i <= 0 {
        Seq::empty()
    } else {
        let prev = entries_upto(s, i - 1);
        match s[i - 1] {
            Slot::Entry(k, v) => prev.push((k, v)),
            _ => prev,
        }
    }
}

/// The pairs that a sequence of borrowed pairs refers to.
pub open spec fn deref_pairs<'a, K, V>(s: Seq<(&'a K, &'a V)>) -> Seq<(K, V)> {
    s.map_values(|p: (&'a K, &'a V)| (*p.0, *p.1))
}

/// An array of slots. For each live key, `locs` records the slot holding it
/// and `steps` the step of the key's probe sequence that reaches that slot.
#[verifier::reject_recursive_types(K)]
pub struct Table<K, V> {
    pub slots: Vec<Slot<K, V>>,
    pub seed: u64,
    pub len: usize,
    pub used: usize,
    pub locs: Ghost<Map<K, nat>>,
    pub steps: Ghost<Map<K, nat>>,
}

impl<K: TableKey, V> Table<K, V> {
    pub open spec fn n(&self) -> int {
        self.slots@.len() as int
    }

    pub open spec fn home(&self, k: K) -> int {
        (k.spec_hash(self.seed) as int) % self.n()
    }

    pub open spec fn probe_slot(&self, k: K, d: int) -> Slot<K, V> {
        self.slots@[probe(self.home(k), d, self.n())]
    }

    /// The live pairs of the table.
    pub open spec fn view(&self) -> Map<K, V> {
        self.locs@.map_values(|i: nat| self.slots@[i as int].value())
    }

    pub open spec fn wf(&self) -> bool {
        &&& self.n() <= MAX_SLOTS
        &&& (self.n() == 0 || is_pow2(self.n()))
        &&& self.locs@.dom().finite()
        &&& self.len == self.locs@.len()
        &&& self.len == count_kind(self.slots@, SlotKind::Live)
        &&& self.used == count_kind(self.slots@, SlotKind::Live) + count_kind(
            self.slots@,
            SlotKind::Dead,
        )
        &&& forall|k: K| #[trigger]
            self.locs@.contains_key(k) ==> {
                &&& self.locs@[k] < self.n()
                &&& self.slots@[self.locs@[k] as int] is Entry
                &&& self.slots@[self.locs@[k] as int].key() == k
            }
        &&& forall|i: int|
            0 <= i < self.n() && (#[trigger] self.slots@[i]) is Entry ==> {
                &&& self.locs@.contains_key(self.slots@[i].key())
                &&& self.locs@[self.slots@[i].key()] == i
            }
        &&& forall|k: K| #[trigger]
            self.steps@.contains_key(k) <==> self.locs@.contains_key(k)
        &&& forall|k: K| #[trigger]
            self.locs@.contains_key(k) ==> {
                &&& self.steps@[k] < self.n()
                &&& probe(self.home(k), self.steps@[k] as int, self.n()) == self.locs@[k]
            }
        &&& forall|k: K, d: int|
            self.locs@.contains_key(k) && 0 <= d < self.steps@[k] ==> !(#[trigger] self.probe_slot(
                k,
                d,
            ) is Empty)
    }

    pub proof fn lemma_counts(&self)
        requires
            self.wf(),
        ensures
            self.len <= self.used <= self.n(),
            self.used < self.n() ==> exists|i: int| 0 <= i < self.n() && self.slots@[i] is Empty,
    {
        lemma_count_total(self.slots@);
        if self.used < self.n() {
            let i = lemma_free_exists(self.slots@);
        }
    }

    pub proof fn lemma_view(&self)
        requires
            self.wf(),
        ensures
            self.view().dom() == self.locs@.dom(),
            self.view().dom().finite(),
            self.view().len() == self.len,
    {
        assert(self.view().dom() =~= self.locs@.dom());
    }

    pub fn new_table(n: usize, seed: u64) -> (t: Self)
        requires
            n <= MAX_SLOTS,
            n == 0 || is_pow2(n as int),
        ensures
            t.wf(),
            t.n() == n,
            t.seed == seed,
            t.view() == Map::<K, V>::empty(),
            t.locs@ == Map::<K, nat>::empty(),
            t.used == 0,
    {
        let mut slots: Vec<Slot<K, V>> = Vec::new();
        let mut i: usize = 0;
        while i < n
            invariant
                i <= n,
                slots@.len() == i,
                forall|j: int| 0 <= j < i ==> (#[trigger] slots@[j]) is Empty,
            decreases n - i,
        {
            slots.push(Slot::Empty);
            i = i + 1;
        }
        proof {
            assert forall|j: int| 0 <= j < slots@.len() implies #[trigger] slots@[j].kind()
                == SlotKind::Free by {
                assert(slots@[j] is Empty);
            }
            lemma_count_all_of(slots@, SlotKind::Free);
            lemma_count_total(slots@);
        }
        let t = Table { slots, seed, len: 0, used: 0, locs: Ghost(Map::empty()), steps: Ghost(Map::empty()) };
        assert(t.view() =~= Map::<K, V>::empty());
        t
    }

    pub fn size(&self) -> (r: usize)
        ensures
            r == self.n(),
    {
        self.slots.len()
    }

    /// First slot of `k`'s probe sequence: its hash modulo the table size
    /// (a power of two, so this keeps the hash's low bits).
    fn home_of(&self, k: &K) -> (h: usize)
        requires
            self.wf(),
            self.n() > 0,
        ensures
            h == self.home(*k),
            h < self.n(),
    {
        let hash = k.hash_with(self.seed);
        (hash % (self.slots.len() as u64)) as usize
    }

    /// Walks the probe sequence of `k` and returns the slot holding it, stopping
    /// at the first `Empty` slot.
    pub fn find(&self, k: &K) -> (r: Option<usize>)
        requires
            self.wf(),
        ensures
            match r {
                Some(i) => self.locs@.contains_key(*k) && self.locs@[*k] == i,
                None => !self.locs@.contains_key(*k),
            },
    {
        let n = self.slots.len();
        if n == 0 {
            return None;
        }
        let h = self.home_of(k);
        let mut d: usize = 0;
        let mut idx: usize = h;
        proof {
            lemma_small_mod(h as nat, n as nat);
        }
        while d < n
            invariant
                self.wf(),
                n == self.n(),
                n > 0,
                h == self.home(*k),
                h < n,
                d <= n,
                idx < n,
                idx == probe(h as int, d as int, n as int),
                forall|e: int|
                    0 <= e < d ==> !(#[trigger] self.probe_slot(*k, e) is Entry && self.probe_slot(
                        *k,
                        e,
                    ).key() == *k),
            decreases n - d,
        {
            assert(self.probe_slot(*k, d as int) == self.slots@[idx as int]);
            match &self.slots[idx] {
                Slot::Empty => {
                    proof {
                        if self.locs@.contains_key(*k) {
                            let s = self.locs@[*k] as int;
                            let dd = self.steps@[*k] as int;
                            assert(self.probe_slot(*k, dd) == self.slots@[s]);
                        }
                    }
                    return None;
                },
                Slot::Entry(k2, _) => {
                    if k2.same_key(k) {
                        return Some(idx);
                    }
                },
                _ => {},
            }
            proof {
                lemma_probe_step(h as int, d as int, n as int);
            }
            idx = next_probe(idx, d, n);
            d = d + 1;
        }
        proof {
            if self.locs@.contains_key(*k) {
                let s = self.locs@[*k] as int;
                let dd = self.steps@[*k] as int;
                assert(self.probe_slot(*k, dd) == self.slots@[s]);
            }
        }
        None
    }

    /// Publishes `k -> v` in the free slot `i`, the first free one on `k`'s path.
    pub fn place(&mut self, i: usize, d: usize, k: K, v: V)
        requires
            old(self).wf(),
            i < old(self).n(),
            d < old(self).n(),
            i == probe(old(self).home(k), d as int, old(self).n()),
            old(self).slots@[i as int] is Empty || old(self).slots@[i as int] is Tombstone,
            forall|e: int| 0 <= e < d ==> !(#[trigger] old(self).probe_slot(k, e) is Empty),
            !old(self).locs@.contains_key(k),
        ensures
            final(self).wf(),
            final(self).seed == old(self).seed,
            final(self).len == old(self).len + 1,
            final(self).used == old(self).used + if old(self).slots@[i as int] is Empty {
                1int
            } else {
                0int
            },
            final(self).slots@ == old(self).slots@.update(i as int, Slot::Entry(k, v)),
            steps_allowed(old(self).slots@, final(self).slots@),
            final(self).locs@ == old(self).locs@.insert(k, i as nat),
            final(self).view() == old(self).view().insert(k, v),
    {
        let ghost s0 = self.slots@;
        let was_empty = match &self.slots[i] {
            Slot::Empty => true,
            _ => false,
        };
        proof {
            lemma_count_update(s0, i as int, Slot::Entry(k, v), SlotKind::Live);
            lemma_count_update(s0, i as int, Slot::Entry(k, v), SlotKind::Dead);
            lemma_count_total(s0);
        }
        self.slots[i] = Slot::Entry(k, v);
        self.len = self.len + 1;
        if was_empty {
            self.used = self.used + 1;
        }
        self.locs = Ghost(self.locs@.insert(k, i as nat));
        self.steps = Ghost(self.steps@.insert(k, d as nat));
        proof {
            assert(self.locs@.dom().finite());
            assert forall|k2: K, e: int|
                self.locs@.contains_key(k2) && 0 <= e < self.steps@[k2] implies !(#[trigger] self.probe_slot(k2, e) is Empty) by {
                if k2 != k {
                    assert(old(self).probe_slot(k2, e) is Empty ==> false);
                } else {
                    assert(!(old(self).probe_slot(k2, e) is Empty));
                }
            }
            assert(self.view() =~= old(self).view().insert(k, v));
        }
    }

    /// Removes the pair in slot `i`, leaving the marker `dead` behind.
    pub fn take(&mut self, i: usize, dead: Slot<K, V>) -> (r: (K, V))
        requires
            old(self).wf(),
            i < old(self).n(),
            old(self).slots@[i as int] is Entry,
            dead is Tombstone || dead is Copied,
        ensures
            final(self).wf(),
            final(self).seed == old(self).seed,
            final(self).len == old(self).len - 1,
            final(self).used == old(self).used,
            r.0 == old(self).slots@[i as int].key(),
            r.1 == old(self).slots@[i as int].value(),
            old(self).locs@.contains_key(r.0),
            old(self).view().contains_key(r.0),
            old(self).view()[r.0] == r.1,
            final(self).slots@ == old(self).slots@.update(i as int, dead),
            steps_allowed(old(self).slots@, final(self).slots@),
            final(self).locs@ == old(self).locs@.remove(r.0),
            final(self).view() == old(self).view().remove(r.0),
    {
        let ghost s0 = self.slots@;
        proof {
            lemma_count_update(s0, i as int, dead, SlotKind::Live);
            lemma_count_update(s0, i as int, dead, SlotKind::Dead);
            lemma_count_total(s0);
            assert(self.locs@.contains_key(s0[i as int].key()));
        }
        let mut tmp = dead;
        std::mem::swap(&mut self.slots[i], &mut tmp);
        self.len = self.len - 1;
        match tmp {
            Slot::Entry(k, v) => {
                self.locs = Ghost(self.locs@.remove(k));
                self.steps = Ghost(self.steps@.remove(k));
                proof {
                    assert forall|k2: K, e: int|
                        self.locs@.contains_key(k2) && 0 <= e < self.steps@[k2] implies !(#[trigger] self.probe_slot(k2, e) is Empty) by {
                        assert(old(self).probe_slot(k2, e) is Empty ==> false);
                    }
                    assert(self.view() =~= old(self).view().remove(k));
                }
                (k, v)
            },
            _ => vstd::pervasive::unreached(),
        }
    }

    /// Marks the slot `i`, which holds no pair, as moved to the successor table.
    pub fn mark_copied(&mut self, i: usize)
        requires
            old(self).wf(),
            i < old(self).n(),
            !(old(self).slots@[i as int] is Entry),
        ensures
            final(self).wf(),
            final(self).seed == old(self).seed,
            final(self).len == old(self).len,
            final(self).slots@ == old(self).slots@.update(i as int, Slot::Copied),
            steps_allowed(old(self).slots@, final(self).slots@),
            final(self).locs@ == old(self).locs@,
            final(self).view() == old(self).view(),
    {
        let ghost s0 = self.slots@;
        let was_empty = match &self.slots[i] {
            Slot::Empty => true,
            _ => false,
        };
        proof {
            lemma_count_update(s0, i as int, Slot::Copied, SlotKind::Live);
            lemma_count_update(s0, i as int, Slot::Copied, SlotKind::Dead);
            lemma_count_total(s0);
        }
        self.slots[i] = Slot::Copied;
        if was_empty {
            self.used = self.used + 1;
        }
        proof {
            assert forall|k2: K, e: int|
                self.locs@.contains_key(k2) && 0 <= e < self.steps@[k2] implies !(#[trigger] self.probe_slot(k2, e) is Empty) by {
                assert(old(self).probe_slot(k2, e) is Empty ==> false);
            }
            assert(self.view() =~= old(self).view());
        }
    }

    /// Replaces the value of the pair in slot `i`, returning the old value.
    pub fn replace_value(&mut self, i: usize, v: V) -> (r: V)
        requires
            old(self).wf(),
            i < old(self).n(),
            old(self).slots@[i as int] is Entry,
        ensures
            final(self).wf(),
            final(self).seed == old(self).seed,
            final(self).len == old(self).len,
            final(self).used == old(self).used,
            r == old(self).slots@[i as int].value(),
            final(self).slots@ == old(self).slots@.update(
                i as int,
                Slot::Entry(old(self).slots@[i as int].key(), v),
            ),
            steps_allowed(old(self).slots@, final(self).slots@),
            final(self).locs@ == old(self).locs@,
            final(self).view() == old(self).view().insert(old(self).slots@[i as int].key(), v),
    {
        let ghost s0 = self.slots@;
        let ghost k0 = s0[i as int].key();
        let mut tmp = Slot::Tombstone;
        std::mem::swap(&mut self.slots[i], &mut tmp);
        match tmp {
            Slot::Entry(k, old_v) => {
                self.slots[i] = Slot::Entry(k, v);
                proof {
                    lemma_count_update(s0, i as int, Slot::Entry(k, v), SlotKind::Live);
                    lemma_count_update(s0, i as int, Slot::Entry(k, v), SlotKind::Dead);
                    assert(self.slots@ == s0.update(i as int, Slot::Entry(k, v)));
                    assert forall|k2: K, e: int|
                        self.locs@.contains_key(k2) && 0 <= e < self.steps@[k2] implies !(#[trigger] self.probe_slot(k2, e) is Empty) by {
                        assert(old(self).probe_slot(k2, e) is Empty ==> false);
                    }
                    assert(self.view() =~= old(self).view().insert(k0, v));
                }
                old_v
            },
            _ => vstd::pervasive::unreached(),
        }
    }

    pub fn key_at(&self, i: usize) -> (r: &K)
        requires
            self.wf(),
            i < self.n(),
            self.slots@[i as int] is Entry,
        ensures
            *r == self.slots@[i as int].key(),
    {
        match &self.slots[i] {
            Slot::Entry(k, _) => k,
            _ => vstd::pervasive::unreached(),
        }
    }

    pub fn value_at(&self, i: usize) -> (r: &V)
        requires
            self.wf(),
            i < self.n(),
            self.slots@[i as int] is Entry,
        ensures
            *r == self.slots@[i as int].value(),
    {
        match &self.slots[i] {
            Slot::Entry(_, v) => v,
            _ => vstd::pervasive::unreached(),
        }
    }

    /// Turns every live pair into a tombstone.
    pub fn clear_live(&mut self)
        requires
            old(self).wf(),
        ensures
            final(self).wf(),
            final(self).view() == Map::<K, V>::empty(),
            final(self).locs@ == Map::<K, nat>::empty(),
            final(self).len == 0,
            final(self).used == old(self).used,
            final(self).n() == old(self).n(),
            final(self).seed == old(self).seed,
            steps_allowed(old(self).slots@, final(self).slots@),
            forall|j: int|
                0 <= j < old(self).n() && old(self).slots@[j] is Copied
                    ==> #[trigger] final(self).slots@[j] is Copied,
    {
        let n = self.slots.len();
        let mut i: usize = 0;
        while i < n
            invariant
                self.wf(),
                n == self.n(),
                n == old(self).n(),
                i <= n,
                self.used == old(self).used,
                self.seed == old(self).seed,
                steps_allowed(old(self).slots@, self.slots@),
                forall|j: int| 0 <= j < i ==> !(#[trigger] self.slots@[j] is Entry),
                forall|j: int|
                    0 <= j < n && old(self).slots@[j] is Copied ==> #[trigger] self.slots@[j] is Copied,
            decreases n - i,
        {
            let live = match &self.slots[i] {
                Slot::Entry(_, _) => true,
                _ => false,
            };
            if live {
                let ghost before = self.slots@;
                let _ = self.take(i, Slot::Tombstone);
                proof {
                    lemma_steps_compose(old(self).slots@, before, self.slots@);
                }
            }
            i = i + 1;
        }
        proof {
            assert forall|k: K| !self.locs@.contains_key(k) by {
                if self.locs@.contains_key(k) {
                    assert(self.slots@[self.locs@[k] as int] is Entry);
                }
            }
            assert(self.locs@ =~= Map::<K, nat>::empty());
            assert(self.view() =~= Map::<K, V>::empty());
        }
    }

    /// The live pairs of the table, in slot order.
    pub open spec fn entries(&self) -> Seq<(K, V)> {
        entries_upto(self.slots@, self.n())
    }

    proof fn lemma_entries_upto(&self, i: int)
        requires
            self.wf(),
            0 <= i <= self.n(),
        ensures
            forall|j: int|
                0 <= j < entries_upto(self.slots@, i).len() ==> {
                    let p = #[trigger] entries_upto(self.slots@, i)[j];
                    &&& self.locs@.contains_key(p.0)
                    &&& self.locs@[p.0] < i
                    &&& self.view()[p.0] == p.1
                },
            forall|k: K|
                #[trigger] self.locs@.contains_key(k) && self.locs@[k] < i ==> exists|j: int|
                    0 <= j < entries_upto(self.slots@, i).len() && (#[trigger] entries_upto(
                        self.slots@,
                        i,
                    )[j]).0 == k,
            forall|j1: int, j2: int|
                0 <= j1 < j2 < entries_upto(self.slots@, i).len() ==> (#[trigger] entries_upto(
                    self.slots@,
                    i,
                )[j1]).0 != (#[trigger] entries_upto(self.slots@, i)[j2]).0,
        decreases i,
    {
        if i > 0 {
            self.lemma_entries_upto(i - 1);
            let prev = entries_upto(self.slots@, i - 1);
            let cur = entries_upto(self.slots@, i);
            if self.slots@[i - 1] is Entry {
                assert(cur == prev.push((self.slots@[i - 1].key(), self.slots@[i - 1].value())));
                assert forall|k: K|
                    #[trigger] self.locs@.contains_key(k) && self.locs@[k] < i implies exists|j: int|
                        0 <= j < cur.len() && (#[trigger] cur[j]).0 == k by {
                    if self.locs@[k] == i - 1 {
                        assert(cur[prev.len() as int].0 == k);
                    } else {
                        let j = choose|j: int| 0 <= j < prev.len() && (#[trigger] prev[j]).0 == k;
                        assert(cur[j] == prev[j]);
                    }
                }
                assert forall|j: int|
                    0 <= j < cur.len() implies {
                        let p = #[trigger] cur[j];
                        &&& self.locs@.contains_key(p.0)
                        &&& self.locs@[p.0] < i
                        &&& self.view()[p.0] == p.1
                    } by {
                    if j < prev.len() {
                        assert(cur[j] == prev[j]);
                    }
                }
                assert forall|j1: int, j2: int|
                    0 <= j1 < j2 < cur.len() implies (#[trigger] cur[j1]).0 != (
                    #[trigger] cur[j2]).0 by {
                    assert(cur[j1] == prev[j1]);
                    if j2 < prev.len() {
                        assert(cur[j2] == prev[j2]);
                    }
                }
            } else {
                assert(cur == prev);
                assert forall|k: K|
                    #[trigger] self.locs@.contains_key(k) && self.locs@[k] < i implies exists|j: int|
                        0 <= j < cur.len() && (#[trigger] cur[j]).0 == k by {
                    assert(self.locs@[k] != i - 1);
                }
            }
        }
    }

    /// Every pair of `entries` is live, every live key occurs in it, and no key twice.
    pub proof fn lemma_entries(&self)
        requires
            self.wf(),
        ensures
            forall|j: int|
                0 <= j < self.entries().len() ==> {
                    let p = #[trigger] self.entries()[j];
                    &&& self.view().contains_key(p.0)
                    &&& self.view()[p.0] == p.1
                },
            forall|k: K|
                #[trigger] self.view().contains_key(k) ==> exists|j: int|
                    0 <= j < self.entries().len() && (#[trigger] self.entries()[j]).0 == k,
            forall|j1: int, j2: int|
                0 <= j1 < j2 < self.entries().len() ==> (#[trigger] self.entries()[j1]).0 != (
                #[trigger] self.entries()[j2]).0,
    {
        self.lemma_entries_upto(self.n());
        self.lemma_view();
        assert forall|k: K| #[trigger] self.view().contains_key(k) implies exists|j: int|
            0 <= j < self.entries().len() && (#[trigger] self.entries()[j]).0 == k by {
            assert(self.locs@.contains_key(k) && self.locs@[k] < self.n());
            let j = choose|j: int|
                0 <= j < entries_upto(self.slots@, self.n()).len() && (#[trigger] entries_upto(
                    self.slots@,
                    self.n(),
                )[j]).0 == k;
            assert(self.entries()[j].0 == k);
        }
    }

    /// Appends the live pairs of the table to `out`, in slot order.
    pub fn collect_into<'a>(&'a self, out: &mut Vec<(&'a K, &'a V)>)
        requires
            self.wf(),
        ensures
            deref_pairs(final(out)@) == deref_pairs(old(out)@) + self.entries(),
    {
        let n = self.slots.len();
        let mut i: usize = 0;
        while i < n
            invariant
                self.wf(),
                n == self.n(),
                i <= n,
                deref_pairs(out@) == deref_pairs(old(out)@) + entries_upto(self.slots@, i as int),
            decreases n - i,
        {
            match &self.slots[i] {
                Slot::Entry(k, v) => {
                    let ghost before = out@;
                    out.push((k, v));
                    proof {
                        assert(self.slots@[i as int] == Slot::Entry(*k, *v));
                        assert(entries_upto(self.slots@, i + 1) == entries_upto(
                            self.slots@,
                            i as int,
                        ).push((*k, *v)));
                        assert(deref_pairs(out@) =~= deref_pairs(before).push((*k, *v)));
                        assert(deref_pairs(out@) =~= deref_pairs(old(out)@) + entries_upto(self.slots@, i + 1));
                    }
                },
                _ => {},
            }
            i = i + 1;
        }
    }

    /// The first slot of `k`'s probe sequence that is `Empty` or a `Tombstone`,
    /// and the step at which it is reached.
    pub fn first_free(&self, k: &K) -> (r: (usize, usize))
        requires
            self.wf(),
            self.used < self.n(),
        ensures
            r.0 < self.n(),
            r.1 < self.n(),
            r.0 == probe(self.home(*k), r.1 as int, self.n()),
            self.slots@[r.0 as int] is Empty || self.slots@[r.0 as int] is Tombstone,
            forall|e: int| 0 <= e < r.1 ==> !(#[trigger] self.probe_slot(*k, e) is Empty),
    {
        let n = self.slots.len();
        let h = self.home_of(k);
        let mut d: usize = 0;
        let mut idx: usize = h;
        proof {
            lemma_small_mod(h as nat, n as nat);
        }
        while d < n
            invariant
                self.wf(),
                self.used < self.n(),
                n == self.n(),
                h == self.home(*k),
                h < n,
                d <= n,
                idx < n,
                idx == probe(h as int, d as int, n as int),
                forall|e: int|
                    0 <= e < d ==> !(#[trigger] self.probe_slot(*k, e) is Empty) && !(
                    self.probe_slot(*k, e) is Tombstone),
            decreases n - d,
        {
            assert(self.probe_slot(*k, d as int) == self.slots@[idx as int]);
            match &self.slots[idx] {
                Slot::Empty => {
                    return (idx, d);
                },
                Slot::Tombstone => {
                    return (idx, d);
                },
                _ => {},
            }
            proof {
                lemma_probe_step(h as int, d as int, n as int);
            }
            idx = next_probe(idx, d, n);
            d = d + 1;
        }
        proof {
            self.lemma_counts();
            let s = choose|s: int| 0 <= s < self.n() && self.slots@[s] is Empty;
            lemma_probe_covers(h as int, n as int, s);
            let dd = choose|dd: int| 0 <= dd < n && #[trigger] probe(h as int, dd, n as int) == s;
            assert(self.probe_slot(*k, dd) == self.slots@[s]);
        }
        vstd::pervasive::unreached()
    }
}

} // verus!
