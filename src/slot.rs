use vstd::prelude::*;

verus! {

/// One cell of a table.
pub enum Slot<K, V> {
    /// Nothing was ever written here.
    Empty,
    /// A live key-value pair.
    Entry(K, V),
    /// A pair was removed from here.
    Tombstone,
    /// A resize moved whatever was here to the successor table.
    Copied,
}

/// Coarse classification of a slot, used for counting.
pub enum SlotKind {
    Free,
    Live,
    Dead,
}

impl<K, V> Slot<K, V> {
    pub open spec fn kind(self) -> SlotKind {
        match self {
            Slot::Empty => SlotKind::Free,
            Slot::Entry(_, _) => SlotKind::Live,
            _ => SlotKind::Dead,
        }
    }

    pub open spec fn key(self) -> K
        recommends
            self is Entry,
    {
        match self {
            Slot::Entry(k, _) => k,
            _ => arbitrary(),
        }
    }

    pub open spec fn value(self) -> V
        recommends
            self is Entry,
    {
        match self {
            Slot::Entry(_, v) => v,
            _ => arbitrary(),
        }
    }

    /// The transitions that the slot protocol allows, `Copied` being terminal.
    pub open spec fn may_become(self, next: Slot<K, V>) -> bool {
        match self {
            Slot::Empty => next is Entry || next is Tombstone || next is Copied,
            Slot::Entry(_, _) => next is Entry || next is Tombstone || next is Copied,
            Slot::Tombstone => next is Entry || next is Copied,
            Slot::Copied => false,
        }
    }
}

/// Every slot of `b` equals the slot of `a` at its index, or is a transition
/// from it that the slot protocol allows.
pub open spec fn steps_allowed<K, V>(a: Seq<Slot<K, V>>, b: Seq<Slot<K, V>>) -> bool {
    &&& a.len() == b.len()
    &&& forall|i: int| 0 <= i < a.len() ==> a[i] == #[trigger] b[i] || a[i].may_become(b[i])
}

/// Allowed transitions compose: a sequence of writes moves each slot along
/// an allowed transition, or leaves it as it was.
pub proof fn lemma_steps_compose<K, V>(a: Seq<Slot<K, V>>, b: Seq<Slot<K, V>>, c: Seq<Slot<K, V>>)
    requires
        steps_allowed(a, b),
        steps_allowed(b, c),
    ensures
        steps_allowed(a, c),
{
    assert forall|i: int| 0 <= i < a.len() implies a[i] == #[trigger] c[i] || a[i].may_become(
        c[i],
    ) by {
        assert(a[i] == b[i] || a[i].may_become(b[i]));
        assert(b[i] == c[i] || b[i].may_become(c[i]));
    }
}

/// A slot that reached `Copied` stays `Copied` under every allowed sequence of writes.
pub proof fn lemma_copied_is_terminal<K, V>(a: Seq<Slot<K, V>>, b: Seq<Slot<K, V>>, i: int)
    requires
        steps_allowed(a, b),
        0 <= i < a.len(),
        a[i] is Copied,
    ensures
        b[i] is Copied,
{
    assert(a[i] == b[i] || a[i].may_become(b[i]));
}

/// Number of slots of `s` of the given kind.
pub open spec fn count_kind<K, V>(s: Seq<Slot<K, V>>, kind: SlotKind) -> nat
    decreases s.len(),
{
    if s.len() == 0 {
        0
    } else {
        count_kind(s.drop_last(), kind) + if s.last().kind() == kind {
            1nat
        } else {
            0nat
        }
    }
}

pub proof fn lemma_count_update<K, V>(s: Seq<Slot<K, V>>, i: int, x: Slot<K, V>, kind: SlotKind)
    requires
        0 <= i < s.len(),
    ensures
        count_kind(s.update(i, x), kind) + (if s[i].kind() == kind {
            1int
        } else {
            0int
        }) == count_kind(s, kind) + (if x.kind() == kind {
            1int
        } else {
            0int
        }),
    decreases s.len(),
{
    let t = s.update(i, x);
    if i == s.len() - 1 {
        assert(t.drop_last() =~= s.drop_last());
    } else {
        assert(t.drop_last() =~= s.drop_last().update(i, x));
        lemma_count_update(s.drop_last(), i, x, kind);
    }
}

pub proof fn lemma_count_total<K, V>(s: Seq<Slot<K, V>>)
    ensures
        count_kind(s, SlotKind::Free) + count_kind(s, SlotKind::Live) + count_kind(s, SlotKind::Dead)
            == s.len(),
    decreases s.len(),
{
    if s.len() > 0 {
        lemma_count_total(s.drop_last());
    }
}

pub proof fn lemma_free_exists<K, V>(s: Seq<Slot<K, V>>) -> (i: int)
    requires
        count_kind(s, SlotKind::Free) > 0,
    ensures
        0 <= i < s.len(),
        s[i] is Empty,
    decreases s.len(),
{
    if s.last() is Empty {
        s.len() - 1
    } else {
        lemma_free_exists(s.drop_last())
    }
}

pub proof fn lemma_count_all_of<K, V>(s: Seq<Slot<K, V>>, kind: SlotKind)
    requires
        forall|i: int| 0 <= i < s.len() ==> #[trigger] s[i].kind() == kind,
    ensures
        count_kind(s, kind) == s.len(),
    decreases s.len(),
{
    if s.len() > 0 {
        lemma_count_all_of(s.drop_last(), kind);
    }
}

} // verus!
