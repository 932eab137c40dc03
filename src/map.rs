use vstd::prelude::*;

use crate::key::{SeededHash, TableKey};
use crate::probe::{is_pow2, lemma_pow2_double_le};
use crate::slot::Slot;
use crate::table::{deref_pairs, Table, MAX_SLOTS};

verus! {

broadcast use vstd::map_lib::group_map_union;

/// Number of old-table slots that one write copies to the successor table.
pub const MIGRATION_CHUNK: usize = 1024;

/// Smallest table that a resize allocates.
pub const MIN_TABLE: usize = 16;

/// Probe distance beyond which an insert resizes the table.
pub const PROBE_CAP: usize = 128;

/// Number of pairs the map can hold: its largest table, loaded to three quarters.
pub const MAX_ENTRIES: usize = 0x2000_0000;

/// Number of non-empty slots a table of `n` slots may hold.
pub open spec fn load_limit(n: int) -> int {
    n - n / 4
}

/// The two tables of a resize in progress: the old `root`, copied in slot
/// order up to `claim`, and its successor `t`.
pub open spec fn migration_wf<K: TableKey, V>(root: Table<K, V>, t: Table<K, V>, claim: int) -> bool {
    &&& root.wf()
    &&& t.wf()
    &&& t.seed == root.seed
    &&& 0 <= claim <= root.n()
    &&& t.used + root.len <= load_limit(t.n())
    &&& forall|i: int| 0 <= i < claim ==> (#[trigger] root.slots@[i]) is Copied
    &&& forall|k: K| #[trigger] root.locs@.contains_key(k) ==> !t.locs@.contains_key(k)
}

/// Contents of a map during a resize: no key is live in both tables.
pub open spec fn pair_view<K: TableKey, V>(root: Table<K, V>, t: Table<K, V>) -> Map<K, V> {
    root.view().union_prefer_right(t.view())
}

/// `m` after inserting the pairs of `s` in order, later pairs overriding
/// earlier ones.
pub open spec fn insert_all<K, V>(m: Map<K, V>, s: Seq<(K, V)>) -> Map<K, V>
    decreases s.len(),
{
    if s.len() == 0 {
        m
    } else {
        insert_all(m, s.drop_last()).insert(s.last().0, s.last().1)
    }
}

proof fn lemma_insert_all_len<K, V>(m: Map<K, V>, s: Seq<(K, V)>)
    requires
        m.dom().finite(),
    ensures
        insert_all(m, s).dom().finite(),
        insert_all(m, s).len() <= m.len() + s.len(),
    decreases s.len(),
{
    if s.len() > 0 {
        lemma_insert_all_len(m, s.drop_last());
    }
}

/// `s` lists the pairs of `m`, each key exactly once.
pub open spec fn lists_map<K, V>(s: Seq<(K, V)>, m: Map<K, V>) -> bool {
    &&& forall|j: int|
        0 <= j < s.len() ==> m.contains_key((#[trigger] s[j]).0) && m[s[j].0] == s[j].1
    &&& forall|k: K| #[trigger]
        m.contains_key(k) ==> exists|j: int| 0 <= j < s.len() && (#[trigger] s[j]).0 == k
    &&& forall|j1: int, j2: int|
        0 <= j1 < j2 < s.len() ==> (#[trigger] s[j1]).0 != (#[trigger] s[j2]).0
}

proof fn lemma_lists_concat<K, V>(a: Seq<(K, V)>, m1: Map<K, V>, b: Seq<(K, V)>, m2: Map<K, V>)
    requires
        lists_map(a, m1),
        lists_map(b, m2),
        m1.dom().disjoint(m2.dom()),
    ensures
        lists_map(a + b, m1.union_prefer_right(m2)),
{
    let c = a + b;
    let m = m1.union_prefer_right(m2);
    assert forall|j: int| 0 <= j < c.len() implies m.contains_key((#[trigger] c[j]).0) && m[c[j].0]
        == c[j].1 by {
        if j >= a.len() {
            assert(c[j] == b[j - a.len()]);
        } else {
            assert(c[j] == a[j]);
            assert(!m2.contains_key(a[j].0));
        }
    }
    assert forall|k: K| #[trigger] m.contains_key(k) implies exists|j: int|
        0 <= j < c.len() && (#[trigger] c[j]).0 == k by {
        if m2.contains_key(k) {
            let j = choose|j: int| 0 <= j < b.len() && (#[trigger] b[j]).0 == k;
            assert(c[a.len() + j] == b[j]);
        } else {
            let j = choose|j: int| 0 <= j < a.len() && (#[trigger] a[j]).0 == k;
            assert(c[j] == a[j]);
        }
    }
    assert forall|j1: int, j2: int| 0 <= j1 < j2 < c.len() implies (#[trigger] c[j1]).0 != (
    #[trigger] c[j2]).0 by {
        if j2 < a.len() {
            assert(c[j1] == a[j1] && c[j2] == a[j2]);
        } else if j1 >= a.len() {
            assert(c[j1] == b[j1 - a.len()] && c[j2] == b[j2 - a.len()]);
        } else {
            assert(c[j1] == a[j1] && c[j2] == b[j2 - a.len()]);
            assert(m1.contains_key(a[j1].0) && m2.contains_key(b[j2 - a.len()].0));
        }
    }
}

/// Moves slot `i`, the first one not yet copied, of the old table into the successor.
fn copy_one<K: TableKey, V>(root: &mut Table<K, V>, t: &mut Table<K, V>, i: usize)
    requires
        migration_wf(*old(root), *old(t), i as int),
        i < old(root).n(),
    ensures
        migration_wf(*final(root), *final(t), i + 1),
        final(root).n() == old(root).n(),
        final(t).n() == old(t).n(),
        pair_view(*final(root), *final(t)) == pair_view(*old(root), *old(t)),
{
    let is_entry = match &root.slots[i] {
        Slot::Entry(_, _) => true,
        _ => false,
    };
    if is_entry {
        let (k, v) = root.take(i, Slot::Copied);
        proof {
            t.lemma_counts();
            old(root).lemma_view();
            root.lemma_view();
            t.lemma_view();
        }
        let (j, d) = t.first_free(&k);
        t.place(j, d, k, v);
        proof {
            assert(pair_view(*root, *t) =~= pair_view(*old(root), *old(t)));
        }
    } else {
        root.mark_copied(i);
        proof {
            assert(pair_view(*root, *t) =~= pair_view(*old(root), *old(t)));
        }
    }
}


/// A hash table with incremental resizing.
///
/// Pairs live in `root`; while a resize runs they are spread over `root` and
/// its successor `next`, slots of `root` below `claim` having been copied.
#[verifier::reject_recursive_types(K)]
pub struct HashMap<K, V> {
    root: Table<K, V>,
    next: Option<Table<K, V>>,
    claim: usize,
    collector: seize::Collector,
}

proof fn lemma_min_table_pow2()
    ensures
        is_pow2(MIN_TABLE as int),
{
    assert(is_pow2(1));
    assert(is_pow2(2));
    assert(is_pow2(4));
    assert(is_pow2(8));
    assert(is_pow2(16));
}

/// Smallest power of two, at least `MIN_TABLE`, whose load limit covers `want`
/// pairs, or `MAX_SLOTS` when none below it does.
fn size_for(want: usize) -> (r: usize)
    ensures
        MIN_TABLE <= r <= MAX_SLOTS,
        is_pow2(r as int),
        r <= MAX_SLOTS / 2 ==> want <= load_limit(r as int),
        want <= load_limit((MAX_SLOTS / 2) as int) ==> want <= load_limit(r as int),
{
    proof {
        lemma_min_table_pow2();
        lemma_half_max_pow2();
    }
    let mut r: usize = MIN_TABLE;
    while r <= MAX_SLOTS / 2 && (r - r / 4) < want
        invariant
            MIN_TABLE <= r <= MAX_SLOTS,
            is_pow2(r as int),
            is_pow2((MAX_SLOTS / 2) as int),
            want <= load_limit((MAX_SLOTS / 2) as int) ==> r <= MAX_SLOTS / 2,
        decreases MAX_SLOTS - r,
    {
        proof {
            if want <= load_limit((MAX_SLOTS / 2) as int) {
                assert(r < MAX_SLOTS / 2);
                lemma_pow2_double_le(r as int, (MAX_SLOTS / 2) as int);
            }
        }
        r = r * 2;
    }
    r
}

proof fn lemma_half_max_pow2()
    ensures
        is_pow2((MAX_SLOTS / 2) as int),
{
    reveal_with_fuel(is_pow2, 32);
}

/// Size of the successor table that a resize of an `n`-slot table allocates.
fn grown_size(n: usize) -> (r: usize)
    requires
        n <= MAX_SLOTS,
        n == 0 || is_pow2(n as int),
    ensures
        n <= r <= MAX_SLOTS,
        MIN_TABLE <= r,
        is_pow2(r as int),
        n < MIN_TABLE ==> r == MIN_TABLE,
        MIN_TABLE <= n <= MAX_SLOTS / 2 ==> r == 2 * n,
        n > MAX_SLOTS / 2 ==> r == n,
{
    proof {
        lemma_min_table_pow2();
    }
    if n < MIN_TABLE {
        MIN_TABLE
    } else if n <= MAX_SLOTS / 2 {
        2 * n
    } else {
        n
    }
}

impl<K: TableKey, V> View for HashMap<K, V> {
    type V = Map<K, V>;

    closed spec fn view(&self) -> Map<K, V> {
        match self.next {
            Some(t) => pair_view(self.root, t),
            None => self.root.view(),
        }
    }
}

impl<K: TableKey, V> HashMap<K, V> {
    /// The map's invariant: each key is live in at most one slot of one table,
    /// and a free slot remains on every probe sequence.
    pub closed spec fn wf(&self) -> bool {
        &&& self.root.wf()
        &&& (self.root.n() == 0 || self.root.n() >= MIN_TABLE)
        &&& match self.next {
            Some(t) => migration_wf(self.root, t, self.claim as int) && t.n() >= MIN_TABLE,
            None => self.root.used <= load_limit(self.root.n()),
        }
    }

    /// Slots of the table that takes new pairs: the successor while a resize
    /// is under way, the root otherwise.
    pub closed spec fn table_size(&self) -> int {
        match self.next {
            Some(t) => t.n(),
            None => self.root.n(),
        }
    }

    /// Number of pairs the table that takes new pairs holds below its load limit.
    pub open spec fn capacity(&self) -> int {
        load_limit(self.table_size())
    }

    /// Number of slots of the old table copied so far by the resize under way.
    pub closed spec fn copied(&self) -> int {
        self.claim as int
    }

    /// Seed under which the map hashes its keys.
    pub closed spec fn seed_of(&self) -> u64 {
        self.root.seed
    }

    /// The reclamation domain that guards of this map come from.
    pub closed spec fn collector_of(&self) -> seize::Collector {
        self.collector
    }

    /// Whether a resize is under way.
    pub closed spec fn resizing(&self) -> bool {
        self.next is Some
    }

    /// Creates an empty map that hashes with `hash_builder` and has room for
    /// `capacity` pairs before it resizes; a capacity of 0 allocates no slots.
    pub fn with_capacity_and_hasher(capacity: usize, hash_builder: SeededHash) -> (r: Self)
        ensures
            r.wf(),
            r@ == Map::<K, V>::empty(),
            !r.resizing(),
            r.seed_of() == hash_builder.seed,
            capacity == 0 ==> r.table_size() == 0 && r.capacity() == 0,
            capacity > 0 ==> is_pow2(r.table_size()) && MIN_TABLE <= r.table_size(),
            capacity <= load_limit((MAX_SLOTS / 2) as int) ==> capacity <= r.capacity(),
    {
        let n = if capacity == 0 {
            0
        } else {
            size_for(capacity)
        };
        let root = Table::new_table(n, hash_builder.seed);
        proof {
            root.lemma_view();
        }
        HashMap { root, next: None, claim: 0, collector: seize::Collector::new() }
    }

    /// Creates an empty map with no slots allocated.
    pub fn new() -> (r: Self)
        ensures
            r.wf(),
            r@ == Map::<K, V>::empty(),
            r.table_size() == 0,
            r.capacity() == 0,
    {
        Self::with_capacity_and_hasher(0, SeededHash::new())
    }

    /// Creates an empty map with room for `capacity` pairs.
    pub fn with_capacity(capacity: usize) -> (r: Self)
        ensures
            r.wf(),
            r@ == Map::<K, V>::empty(),
            capacity == 0 ==> r.table_size() == 0 && r.capacity() == 0,
            capacity > 0 ==> is_pow2(r.table_size()) && MIN_TABLE <= r.table_size(),
            capacity <= load_limit((MAX_SLOTS / 2) as int) ==> capacity <= r.capacity(),
    {
        Self::with_capacity_and_hasher(capacity, SeededHash::new())
    }

    /// Creates an empty map that hashes with `hash_builder`.
    pub fn with_hasher(hash_builder: SeededHash) -> (r: Self)
        ensures
            r.wf(),
            r@ == Map::<K, V>::empty(),
            r.seed_of() == hash_builder.seed,
            r.table_size() == 0,
            r.capacity() == 0,
    {
        Self::with_capacity_and_hasher(0, hash_builder)
    }

    /// Replaces the reclamation domain that guards of this map come from.
    pub fn with_collector(self, collector: seize::Collector) -> (r: Self)
        requires
            self.wf(),
        ensures
            r.wf(),
            r@ == self@,
            r.collector_of() == collector,
            r.seed_of() == self.seed_of(),
            r.table_size() == self.table_size(),
            r.resizing() == self.resizing(),
    {
        HashMap { root: self.root, next: self.next, claim: self.claim, collector }
    }

    /// Marks the current thread active in the map's reclamation domain.
    pub fn guard(&self) -> seize::Guard<'_> {
        self.collector.enter()
    }

    /// Copies up to `budget` slots of the old table to its successor, and makes
    /// the successor the root once every slot is copied. Every write first
    /// calls this with `MIGRATION_CHUNK`.
    pub fn help_resize(&mut self, budget: usize)
        requires
            old(self).wf(),
        ensures
            final(self).wf(),
            final(self)@ == old(self)@,
            budget >= MAX_SLOTS ==> !final(self).resizing(),
            !old(self).resizing() ==> !final(self).resizing() && final(self).table_size() == old(
                self,
            ).table_size(),
            old(self).resizing() && final(self).resizing() ==> final(self).copied() == old(
                self,
            ).copied() + budget,
            old(self).resizing() && !final(self).resizing() ==> final(self).table_size() == old(
                self,
            ).table_size(),
    {
        let mut nx: Option<Table<K, V>> = None;
        std::mem::swap(&mut self.next, &mut nx);
        match nx {
            None => {
                assert(self.next is None);
                assert(self.root == old(self).root);
            },
            Some(mut t) => {
                let n = self.root.size();
                let mut done: usize = 0;
                let ghost c0 = self.claim as int;
                let ghost tn = t.n();
                while self.claim < n && done < budget
                    invariant
                        migration_wf(self.root, t, self.claim as int),
                        self.next is None,
                        t.n() == tn,
                        t.n() >= MIN_TABLE,
                        n == 0 || n >= MIN_TABLE,
                        n == self.root.n(),
                        pair_view(self.root, t) == old(self)@,
                        self.claim == c0 + done,
                        done <= budget,
                        c0 <= n <= MAX_SLOTS,
                    decreases n - self.claim,
                {
                    copy_one(&mut self.root, &mut t, self.claim);
                    self.claim = self.claim + 1;
                    done = done + 1;
                }
                if self.claim == n {
                    proof {
                        assert forall|k: K| !self.root.locs@.contains_key(k) by {
                            if self.root.locs@.contains_key(k) {
                                let s = self.root.locs@[k] as int;
                                assert(self.root.slots@[s] is Copied);
                            }
                        }
                        self.root.lemma_view();
                        t.lemma_view();
                        assert(self.root.view() =~= Map::empty());
                        assert(pair_view(self.root, t) =~= t.view());
                        assert(self.root.len == 0);
                        assert(t.used <= load_limit(t.n()));
                    }
                    self.root = t;
                    self.claim = 0;
                } else {
                    self.next = Some(t);
                }
            },
        }
    }

    /// Installs an empty successor table of `size` slots.
    fn start_resize(&mut self, size: usize)
        requires
            old(self).wf(),
            !old(self).resizing(),
            old(self).root.n() <= size <= MAX_SLOTS,
            MIN_TABLE <= size,
            is_pow2(size as int),
        ensures
            final(self).wf(),
            final(self)@ == old(self)@,
            final(self).resizing(),
            final(self).root.len == old(self).root.len,
            final(self).next->0.n() == size,
            final(self).next->0.used == 0,
    {
        let t = Table::new_table(size, self.root.seed);
        proof {
            self.root.lemma_counts();
            assert(load_limit(self.root.n()) <= load_limit(size as int));
            assert(pair_view(self.root, t) =~= self.root.view());
        }
        self.next = Some(t);
        self.claim = 0;
    }

    /// The slot at a location: in the successor table when `loc.0` holds.
    spec fn slot_at(&self, loc: (bool, usize)) -> Slot<K, V> {
        if loc.0 {
            self.next->0.slots@[loc.1 as int]
        } else {
            self.root.slots@[loc.1 as int]
        }
    }

    /// `loc` is the slot where `k` is live.
    spec fn holds_at(&self, k: K, loc: (bool, usize)) -> bool {
        if loc.0 {
            &&& self.next is Some
            &&& self.next->0.locs@.contains_key(k)
            &&& self.next->0.locs@[k] == loc.1
        } else {
            &&& self.root.locs@.contains_key(k)
            &&& self.root.locs@[k] == loc.1
        }
    }

    proof fn lemma_holds_at(&self, k: K, loc: (bool, usize))
        requires
            self.wf(),
            self.holds_at(k, loc),
        ensures
            self@.contains_key(k),
            self@[k] == self.slot_at(loc).value(),
            self.slot_at(loc) is Entry,
            self.slot_at(loc).key() == k,
    {
        self.root.lemma_view();
        if self.next is Some {
            self.next->0.lemma_view();
        }
    }

    /// Finds the slot where `k` is live, in the root table first. A `Copied`
    /// slot on the path does not end the search in the root table: a pair
    /// further along the path may not have been copied yet.
    fn locate(&self, k: &K) -> (r: Option<(bool, usize)>)
        requires
            self.wf(),
        ensures
            match r {
                None => !self@.contains_key(*k),
                Some(loc) => self.holds_at(*k, loc),
            },
    {
        proof {
            self.root.lemma_view();
        }
        match self.root.find(k) {
            Some(i) => Some((false, i)),
            None => match &self.next {
                Some(t) => {
                    proof {
                        t.lemma_view();
                    }
                    match t.find(k) {
                        Some(i) => Some((true, i)),
                        None => None,
                    }
                },
                None => None,
            },
        }
    }

    fn key_ref(&self, loc: (bool, usize)) -> (r: &K)
        requires
            self.wf(),
            exists|k: K| self.holds_at(k, loc),
        ensures
            *r == self.slot_at(loc).key(),
    {
        proof {
            let k = choose|k: K| self.holds_at(k, loc);
            self.lemma_holds_at(k, loc);
        }
        if loc.0 {
            match &self.next {
                Some(t) => t.key_at(loc.1),
                None => vstd::pervasive::unreached(),
            }
        } else {
            self.root.key_at(loc.1)
        }
    }

    fn value_ref(&self, loc: (bool, usize)) -> (r: &V)
        requires
            self.wf(),
            exists|k: K| self.holds_at(k, loc),
        ensures
            *r == self.slot_at(loc).value(),
    {
        proof {
            let k = choose|k: K| self.holds_at(k, loc);
            self.lemma_holds_at(k, loc);
        }
        if loc.0 {
            match &self.next {
                Some(t) => t.value_at(loc.1),
                None => vstd::pervasive::unreached(),
            }
        } else {
            self.root.value_at(loc.1)
        }
    }

    /// Replaces the value of the live pair of `k` found at `loc`.
    fn replace_at(&mut self, Ghost(k): Ghost<K>, loc: (bool, usize), v: V) -> (r: V)
        requires
            old(self).wf(),
            old(self).holds_at(k, loc),
        ensures
            final(self).wf(),
            final(self)@ == old(self)@.insert(k, v),
            r == old(self)@[k],
            final(self).holds_at(k, loc),
            final(self).resizing() == old(self).resizing(),
    {
        proof {
            self.lemma_holds_at(k, loc);
            self.root.lemma_view();
        }
        if !loc.0 {
            let r = self.root.replace_value(loc.1, v);
            proof {
                self.root.lemma_view();
                if self.next is Some {
                    self.next->0.lemma_view();
                    assert(self@ =~= old(self)@.insert(k, v));
                } else {
                    assert(self@ =~= old(self)@.insert(k, v));
                }
            }
            r
        } else {
            let mut nx: Option<Table<K, V>> = None;
            std::mem::swap(&mut self.next, &mut nx);
            match nx {
                Some(mut t) => {
                    proof {
                        t.lemma_view();
                    }
                    let r = t.replace_value(loc.1, v);
                    proof {
                        t.lemma_view();
                    }
                    self.next = Some(t);
                    proof {
                        assert(self@ =~= old(self)@.insert(k, v));
                    }
                    r
                },
                None => vstd::pervasive::unreached(),
            }
        }
    }

    /// Removes the live pair of `k` found at `loc`, leaving a tombstone.
    fn remove_at(&mut self, Ghost(k): Ghost<K>, loc: (bool, usize)) -> (r: (K, V))
        requires
            old(self).wf(),
            old(self).holds_at(k, loc),
        ensures
            final(self).wf(),
            final(self)@ == old(self)@.remove(k),
            r.0 == k,
            r.1 == old(self)@[k],
            final(self).resizing() == old(self).resizing(),
    {
        proof {
            self.lemma_holds_at(k, loc);
            self.root.lemma_view();
        }
        if !loc.0 {
            let r = self.root.take(loc.1, Slot::Tombstone);
            proof {
                self.root.lemma_view();
                if self.next is Some {
                    self.next->0.lemma_view();
                    assert(self@ =~= old(self)@.remove(k));
                } else {
                    assert(self@ =~= old(self)@.remove(k));
                }
            }
            r
        } else {
            let mut nx: Option<Table<K, V>> = None;
            std::mem::swap(&mut self.next, &mut nx);
            match nx {
                Some(mut t) => {
                    proof {
                        t.lemma_view();
                    }
                    let r = t.take(loc.1, Slot::Tombstone);
                    proof {
                        t.lemma_view();
                    }
                    self.next = Some(t);
                    proof {
                        assert(self@ =~= old(self)@.remove(k));
                    }
                    r
                },
                None => vstd::pervasive::unreached(),
            }
        }
    }

    /// Publishes `k -> v` for a key that is not live, in the root table when a
    /// free slot lies near its home there and the root is below its load limit,
    /// and in the successor table otherwise, resizing first when needed.
    fn insert_absent(&mut self, k: K, v: V) -> (loc: (bool, usize))
        requires
            old(self).wf(),
            !old(self)@.contains_key(k),
            old(self)@.len() < MAX_ENTRIES,
        ensures
            final(self).wf(),
            final(self)@ == old(self)@.insert(k, v),
            final(self).holds_at(k, loc),
    {
        let room = match &self.next {
            Some(t) => (t.used as u64) + (self.root.len as u64) + 1 <= (t.size() - t.size() / 4) as u64,
            None => true,
        };
        if !room {
            self.help_resize(MAX_SLOTS);
        }
        let resizing = match &self.next {
            Some(_) => true,
            None => false,
        };
        if !resizing {
            proof {
                self.root.lemma_counts();
                self.root.lemma_view();
            }
            let n = self.root.size();
            if self.root.used + 1 <= n - n / 4 {
                let (i, d) = self.root.first_free(&k);
                let cap = if n < PROBE_CAP {
                    n
                } else {
                    PROBE_CAP
                };
                if d < cap {
                    self.root.place(i, d, k, v);
                    proof {
                        self.root.lemma_view();
                    }
                    return (false, i);
                }
            }
            let size = grown_size(n);
            self.start_resize(size);
        }
        let mut nx: Option<Table<K, V>> = None;
        std::mem::swap(&mut self.next, &mut nx);
        match nx {
            Some(mut t) => {
                proof {
                    t.lemma_counts();
                    t.lemma_view();
                    self.root.lemma_view();
                }
                let (i, d) = t.first_free(&k);
                t.place(i, d, k, v);
                proof {
                    t.lemma_view();
                }
                self.next = Some(t);
                proof {
                    assert(self@ =~= old(self)@.insert(k, v));
                }
                (true, i)
            },
            None => vstd::pervasive::unreached(),
        }
    }

    /// Number of pairs in the map.
    pub fn len(&self) -> (r: usize)
        requires
            self.wf(),
        ensures
            r == self@.len(),
    {
        proof {
            self.root.lemma_view();
            self.root.lemma_counts();
        }
        match &self.next {
            Some(t) => {
                proof {
                    t.lemma_view();
                    t.lemma_counts();
                    assert(self.root.view().dom().disjoint(t.view().dom()));
                }
                self.root.len + t.len
            },
            None => self.root.len,
        }
    }

    /// Whether the map holds no pair.
    pub fn is_empty(&self) -> (r: bool)
        requires
            self.wf(),
        ensures
            r == (self@.len() == 0),
    {
        self.len() == 0
    }

    /// The value of `key`, if the map holds it.
    pub fn get(&self, key: &K) -> (r: Option<&V>)
        requires
            self.wf(),
        ensures
            match r {
                Some(v) => self@.contains_key(*key) && *v == self@[*key],
                None => !self@.contains_key(*key),
            },
    {
        match self.locate(key) {
            Some(loc) => {
                proof {
                    self.lemma_holds_at(*key, loc);
                }
                Some(self.value_ref(loc))
            },
            None => None,
        }
    }

    /// The stored key and the value of `key`, if the map holds it.
    pub fn get_key_value(&self, key: &K) -> (r: Option<(&K, &V)>)
        requires
            self.wf(),
        ensures
            match r {
                Some(p) => self@.contains_key(*key) && *p.0 == *key && *p.1 == self@[*key],
                None => !self@.contains_key(*key),
            },
    {
        match self.locate(key) {
            Some(loc) => {
                proof {
                    self.lemma_holds_at(*key, loc);
                }
                Some((self.key_ref(loc), self.value_ref(loc)))
            },
            None => None,
        }
    }

    /// Whether the map holds `key`.
    pub fn contains_key(&self, key: &K) -> (r: bool)
        requires
            self.wf(),
        ensures
            r == self@.contains_key(*key),
    {
        match self.locate(key) {
            Some(_) => true,
            None => false,
        }
    }

    /// Maps `key` to `value`, returning the value it replaced.
    pub fn insert(&mut self, key: K, value: V) -> (r: Option<V>)
        requires
            old(self).wf(),
            old(self)@.contains_key(key) || old(self)@.len() < MAX_ENTRIES,
        ensures
            final(self).wf(),
            final(self)@ == old(self)@.insert(key, value),
            r == if old(self)@.contains_key(key) {
                Some(old(self)@[key])
            } else {
                None::<V>
            },
    {
        self.help_resize(MIGRATION_CHUNK);
        match self.locate(&key) {
            Some(loc) => Some(self.replace_at(Ghost(key), loc, value)),
            None => {
                self.insert_absent(key, value);
                None
            },
        }
    }

    /// Maps `key` to `value` unless the map holds `key` already; then nothing
    /// changes and the error carries the current value and `value`.
    pub fn try_insert(&mut self, key: K, value: V) -> (r: Result<&V, OccupiedError<'_, V>>)
        requires
            old(self).wf(),
            old(self)@.contains_key(key) || old(self)@.len() < MAX_ENTRIES,
        ensures
            final(self).wf(),
            old(self)@.contains_key(key) ==> final(self)@ == old(self)@,
            !old(self)@.contains_key(key) ==> final(self)@ == old(self)@.insert(key, value),
            match r {
                Ok(v) => !old(self)@.contains_key(key) && *v == value,
                Err(e) => old(self)@.contains_key(key) && *e.current == old(self)@[key]
                    && e.not_inserted == value,
            },
    {
        self.help_resize(MIGRATION_CHUNK);
        match self.locate(&key) {
            Some(loc) => {
                proof {
                    self.lemma_holds_at(key, loc);
                }
                Err(OccupiedError { current: self.value_ref(loc), not_inserted: value })
            },
            None => {
                let loc = self.insert_absent(key, value);
                proof {
                    self.lemma_holds_at(key, loc);
                }
                Ok(self.value_ref(loc))
            },
        }
    }

    /// Replaces the value `v` of `key` by `update(v)`, and returns the new
    /// value; does nothing when the map does not hold `key`.
    pub fn update<F: Fn(&V) -> V>(&mut self, key: K, update: F) -> (r: Option<&V>)
        requires
            old(self).wf(),
            forall|v: &V| update.requires((v,)),
        ensures
            final(self).wf(),
            match r {
                Some(v) => {
                    &&& old(self)@.contains_key(key)
                    &&& update.ensures((&old(self)@[key],), *v)
                    &&& final(self)@ == old(self)@.insert(key, *v)
                },
                None => !old(self)@.contains_key(key) && final(self)@ == old(self)@,
            },
    {
        self.help_resize(MIGRATION_CHUNK);
        match self.locate(&key) {
            None => None,
            Some(loc) => {
                proof {
                    self.lemma_holds_at(key, loc);
                }
                let nv = update(self.value_ref(loc));
                let _ = self.replace_at(Ghost(key), loc, nv);
                proof {
                    self.lemma_holds_at(key, loc);
                }
                Some(self.value_ref(loc))
            },
        }
    }

    /// Removes `key`, returning the stored key and its value.
    pub fn remove_entry(&mut self, key: &K) -> (r: Option<(K, V)>)
        requires
            old(self).wf(),
        ensures
            final(self).wf(),
            final(self)@ == old(self)@.remove(*key),
            r == if old(self)@.contains_key(*key) {
                Some((*key, old(self)@[*key]))
            } else {
                None::<(K, V)>
            },
    {
        self.help_resize(MIGRATION_CHUNK);
        match self.locate(key) {
            None => {
                proof {
                    assert(self@ =~= old(self)@.remove(*key));
                }
                None
            },
            Some(loc) => Some(self.remove_at(Ghost(*key), loc)),
        }
    }

    /// Removes `key`, returning its value.
    pub fn remove(&mut self, key: &K) -> (r: Option<V>)
        requires
            old(self).wf(),
        ensures
            final(self).wf(),
            final(self)@ == old(self)@.remove(*key),
            r == if old(self)@.contains_key(*key) {
                Some(old(self)@[*key])
            } else {
                None::<V>
            },
    {
        match self.remove_entry(key) {
            Some((_, v)) => Some(v),
            None => None,
        }
    }

    /// Makes room for `additional` more pairs: when the table that takes new
    /// pairs cannot hold `len + additional` below its load limit, the resize
    /// under way is finished and a resize to a table that can is started.
    pub fn reserve(&mut self, additional: usize)
        requires
            old(self).wf(),
        ensures
            final(self).wf(),
            final(self)@ == old(self)@,
            old(self)@.len() + additional <= load_limit((MAX_SLOTS / 2) as int) ==> old(self)@.len()
                + additional <= final(self).capacity(),
            !old(self).resizing() && old(self)@.len() + additional <= old(self).capacity() ==> {
                &&& !final(self).resizing()
                &&& final(self).table_size() == old(self).table_size()
            },
    {
        self.help_resize(MIGRATION_CHUNK);
        let extra = if additional > MAX_SLOTS {
            MAX_SLOTS
        } else {
            additional
        };
        let len = self.len();
        proof {
            self.lemma_len_bound();
        }
        let want = (len as u64) + (extra as u64);
        let fits = match &self.next {
            Some(t) => want <= (t.size() - t.size() / 4) as u64,
            None => true,
        };
        if !fits {
            self.help_resize(MAX_SLOTS);
        }
        let resizing = match &self.next {
            Some(_) => true,
            None => false,
        };
        if !resizing {
            let n = self.root.size();
            if want > (n - n / 4) as u64 {
                let target = if want > MAX_SLOTS as u64 {
                    MAX_SLOTS
                } else {
                    want as usize
                };
                let wanted = size_for(target);
                let grown = grown_size(n);
                let size = if wanted > grown {
                    wanted
                } else {
                    grown
                };
                self.start_resize(size);
            }
        }
    }

    proof fn lemma_len_bound(&self)
        requires
            self.wf(),
        ensures
            self@.len() <= MAX_SLOTS,
    {
        self.root.lemma_view();
        self.root.lemma_counts();
        if self.next is Some {
            self.next->0.lemma_view();
            self.next->0.lemma_counts();
            assert(self.root.view().dom().disjoint(self.next->0.view().dom()));
        }
    }

    /// Removes every pair.
    pub fn clear(&mut self)
        requires
            old(self).wf(),
        ensures
            final(self).wf(),
            final(self)@ == Map::<K, V>::empty(),
    {
        self.root.clear_live();
        let mut nx: Option<Table<K, V>> = None;
        std::mem::swap(&mut self.next, &mut nx);
        match nx {
            Some(mut t) => {
                t.clear_live();
                self.next = Some(t);
                proof {
                    assert(self@ =~= Map::<K, V>::empty());
                }
            },
            None => {},
        }
    }

    /// The pairs of the map: those of the root table in slot order, then those
    /// of the successor table.
    pub fn iter(&self) -> (r: Iter<'_, K, V>)
        requires
            self.wf(),
        ensures
            r.wf(),
            lists_map(r.remaining(), self@),
    {
        let mut items: Vec<(&K, &V)> = Vec::new();
        self.root.collect_into(&mut items);
        proof {
            self.root.lemma_entries();
            assert(deref_pairs(items@) =~= self.root.entries());
        }
        match &self.next {
            Some(t) => {
                t.collect_into(&mut items);
                proof {
                    t.lemma_entries();
                    self.root.lemma_view();
                    t.lemma_view();
                    lemma_lists_concat(self.root.entries(), self.root.view(), t.entries(), t.view());
                }
            },
            None => {},
        }
        let r = Iter { items, pos: 0 };
        proof {
            assert(r.remaining() =~= deref_pairs(r.items@));
        }
        r
    }

    /// The keys of the map, in the order of `iter`.
    pub fn keys(&self) -> (r: Keys<'_, K, V>)
        requires
            self.wf(),
        ensures
            r.iter.wf(),
            lists_map(r.iter.remaining(), self@),
    {
        Keys { iter: self.iter() }
    }

    /// The values of the map, in the order of `iter`.
    pub fn values(&self) -> (r: Values<'_, K, V>)
        requires
            self.wf(),
        ensures
            r.iter.wf(),
            lists_map(r.iter.remaining(), self@),
    {
        Values { iter: self.iter() }
    }

    /// Inserts the pairs of `pairs` in order; of two pairs with one key the
    /// later one stays.
    pub fn extend(&mut self, pairs: Vec<(K, V)>)
        requires
            old(self).wf(),
            old(self)@.len() + pairs@.len() < MAX_ENTRIES,
        ensures
            final(self).wf(),
            final(self)@ == insert_all(old(self)@, pairs@),
    {
        proof {
            self.lemma_finite();
        }
        let ghost all = pairs@;
        let total = pairs.len();
        let reserve = if self.is_empty() {
            total
        } else {
            total / 2 + total % 2
        };
        self.reserve(reserve);
        for (key, value) in it: pairs.into_iter()
            invariant
                self.wf(),
                old(self)@.dom().finite(),
                old(self)@.len() + all.len() < MAX_ENTRIES,
                it.seq() == all,
                self@ == insert_all(old(self)@, all.take(it.index())),
        {
            proof {
                assert(all.take(it.index() + 1).drop_last() =~= all.take(it.index()));
                lemma_insert_all_len(old(self)@, all.take(it.index()));
            }
            self.insert(key, value);
            proof {
                assert(all[it.index()] == (key, value));
            }
        }
        proof {
            assert(all.take(all.len() as int) =~= all);
        }
    }

    /// A map holding the pairs of `pairs`; of two pairs with one key the later
    /// one stays.
    pub fn from_pairs(pairs: Vec<(K, V)>) -> (r: Self)
        requires
            pairs@.len() < MAX_ENTRIES,
        ensures
            r.wf(),
            r@ == insert_all(Map::<K, V>::empty(), pairs@),
            pairs@.len() == 0 ==> r.table_size() == 0 && r.capacity() == 0,
    {
        let mut m = Self::with_capacity(pairs.len());
        if pairs.len() > 0 {
            m.extend(pairs);
        }
        m
    }

    proof fn lemma_finite(&self)
        requires
            self.wf(),
        ensures
            self@.dom().finite(),
    {
        self.root.lemma_view();
        if self.next is Some {
            self.next->0.lemma_view();
        }
    }

    /// Slot `i` of the root table, or of the successor table when `in_next`
    /// holds, is a live pair with key `k`.
    pub closed spec fn live_at(&self, k: K, in_next: bool, i: int) -> bool {
        if in_next {
            &&& self.next is Some
            &&& 0 <= i < self.next->0.n()
            &&& self.next->0.slots@[i] is Entry
            &&& self.next->0.slots@[i].key() == k
        } else {
            &&& 0 <= i < self.root.n()
            &&& self.root.slots@[i] is Entry
            &&& self.root.slots@[i].key() == k
        }
    }
}

/// Over both tables of a map, a key is live in at most one slot, and in one
/// exactly when the map holds it.
pub proof fn lemma_key_unique<K: TableKey, V>(
    m: &HashMap<K, V>,
    k: K,
    a: bool,
    i: int,
    b: bool,
    j: int,
)
    requires
        m.wf(),
        m.live_at(k, a, i),
        m.live_at(k, b, j),
    ensures
        a == b,
        i == j,
        m@.contains_key(k),
{
    m.root.lemma_view();
    if m.next is Some {
        m.next->0.lemma_view();
    }
}

/// A key the map holds is live in some slot.
pub proof fn lemma_held_key_is_live<K: TableKey, V>(m: &HashMap<K, V>, k: K)
    requires
        m.wf(),
        m@.contains_key(k),
    ensures
        exists|a: bool, i: int| m.live_at(k, a, i),
{
    m.root.lemma_view();
    if m.root.locs@.contains_key(k) {
        assert(m.live_at(k, false, m.root.locs@[k] as int));
    } else {
        m.next->0.lemma_view();
        assert(m.live_at(k, true, m.next->0.locs@[k] as int));
    }
}

/// Once every slot of the old table is copied, the old table holds no live
/// pair and the successor holds every pair of the map.
pub proof fn lemma_copy_complete<K: TableKey, V>(root: Table<K, V>, t: Table<K, V>)
    requires
        migration_wf(root, t, root.n()),
    ensures
        root.view() == Map::<K, V>::empty(),
        pair_view(root, t) == t.view(),
{
    assert forall|k: K| !root.locs@.contains_key(k) by {
        if root.locs@.contains_key(k) {
            assert(root.slots@[root.locs@[k] as int] is Copied);
        }
    }
    root.lemma_view();
    assert(root.view() =~= Map::<K, V>::empty());
    assert(pair_view(root, t) =~= t.view());
}

/// After `insert(k, v)`, `get(k)` finds `v`.
pub proof fn lemma_insert_then_get<K: TableKey, V>(
    before: &HashMap<K, V>,
    after: &HashMap<K, V>,
    k: K,
    v: V,
)
    requires
        after@ == before@.insert(k, v),
    ensures
        after@.contains_key(k),
        after@[k] == v,
{
}

/// After `remove(k)`, `get(k)` finds nothing.
pub proof fn lemma_remove_then_get<K: TableKey, V>(before: &HashMap<K, V>, after: &HashMap<K, V>, k: K)
    requires
        after@ == before@.remove(k),
    ensures
        !after@.contains_key(k),
{
}

/// When `try_insert(k, v1)` succeeds, a following `try_insert(k, v2)` fails
/// and reports `v1` as the current value, whatever `v2` is.
pub proof fn lemma_try_insert_twice<K: TableKey, V>(
    before: &HashMap<K, V>,
    after: &HashMap<K, V>,
    k: K,
    v1: V,
)
    requires
        !before@.contains_key(k),
        after@ == before@.insert(k, v1),
    ensures
        after@.contains_key(k),
        after@[k] == v1,
{
}

impl<K: TableKey, V> Default for HashMap<K, V> {
    fn default() -> (r: Self)
        ensures
            r.wf(),
            r@ == Map::<K, V>::empty(),
    {
        Self::new()
    }
}

/// What `try_insert` returns when the key is present already.
#[derive(Debug, PartialEq, Eq)]
pub struct OccupiedError<'a, V> {
    /// The value in the map.
    pub current: &'a V,
    /// The value that was not inserted.
    pub not_inserted: V,
}

/// The pairs of a map, handed out one at a time.
pub struct Iter<'a, K, V> {
    items: Vec<(&'a K, &'a V)>,
    pos: usize,
}

impl<'a, K, V> Iter<'a, K, V> {
    /// The pairs not handed out yet.
    pub closed spec fn remaining(&self) -> Seq<(K, V)> {
        deref_pairs(self.items@).skip(self.pos as int)
    }

    pub closed spec fn wf(&self) -> bool {
        self.pos <= self.items@.len()
    }

    /// Hands out the next pair.
    pub fn next(&mut self) -> (r: Option<(&'a K, &'a V)>)
        requires
            old(self).wf(),
        ensures
            final(self).wf(),
            match r {
                Some(p) => {
                    &&& old(self).remaining().len() > 0
                    &&& (*p.0, *p.1) == old(self).remaining()[0]
                    &&& final(self).remaining() == old(self).remaining().drop_first()
                },
                None => old(self).remaining().len() == 0 && final(self).remaining() == old(
                    self,
                ).remaining(),
            },
    {
        if self.pos < self.items.len() {
            let p = self.items[self.pos];
            self.pos = self.pos + 1;
            proof {
                assert(self.remaining() =~= old(self).remaining().drop_first());
            }
            Some(p)
        } else {
            None
        }
    }
}

/// The keys of a map, handed out one at a time.
pub struct Keys<'a, K, V> {
    pub iter: Iter<'a, K, V>,
}

impl<'a, K, V> Keys<'a, K, V> {
    /// Hands out the next key.
    pub fn next(&mut self) -> (r: Option<&'a K>)
        requires
            old(self).iter.wf(),
        ensures
            final(self).iter.wf(),
            match r {
                Some(k) => {
                    &&& old(self).iter.remaining().len() > 0
                    &&& *k == old(self).iter.remaining()[0].0
                    &&& final(self).iter.remaining() == old(self).iter.remaining().drop_first()
                },
                None => old(self).iter.remaining().len() == 0 && final(self).iter.remaining() == old(
                    self,
                ).iter.remaining(),
            },
    {
        match self.iter.next() {
            Some((k, _)) => Some(k),
            None => None,
        }
    }
}

/// The values of a map, handed out one at a time.
pub struct Values<'a, K, V> {
    pub iter: Iter<'a, K, V>,
}

impl<'a, K, V> Values<'a, K, V> {
    /// Hands out the next value.
    pub fn next(&mut self) -> (r: Option<&'a V>)
        requires
            old(self).iter.wf(),
        ensures
            final(self).iter.wf(),
            match r {
                Some(v) => {
                    &&& old(self).iter.remaining().len() > 0
                    &&& *v == old(self).iter.remaining()[0].1
                    &&& final(self).iter.remaining() == old(self).iter.remaining().drop_first()
                },
                None => old(self).iter.remaining().len() == 0 && final(self).iter.remaining() == old(
                    self,
                ).iter.remaining(),
            },
    {
        match self.iter.next() {
            Some((_, v)) => Some(v),
            None => None,
        }
    }
}

} // verus!
