use vstd::prelude::*;

use crate::order_index::{index_entries, OrderIndex};

verus! {

/// A marker that flags an entity for rollback, compared by the entity's bit value.
#[derive(PartialEq, Eq, Structural, Clone, Copy, Debug, Hash, PartialOrd, Ord)]
pub struct Rollback {
    bits: u64,
}

impl Rollback {
    /// Makes a marker from an entity's bit value.
    pub fn new(bits: u64) -> (r: Rollback)
        ensures
            r.value() == bits,
    {
        Rollback { bits }
    }

    /// The value by which markers are compared.
    pub closed spec fn value(self) -> u64 {
        self.bits
    }

    /// Returns the value by which markers are compared.
    pub fn bits(&self) -> (r: u64)
        ensures
            r == self.value(),
    {
        self.bits
    }
}

/// Two markers are equal exactly when their values are equal.
pub proof fn lemma_value_identifies(a: Rollback, b: Rollback)
    ensures
        a == b <==> a.value() == b.value(),
{
}

/// Markers in strictly increasing order of value: sorted, with no duplicates.
pub open spec fn strictly_sorted(s: Seq<Rollback>) -> bool {
    forall|i: int, j: int| 0 <= i < j < s.len() ==> s[i].value() < s[j].value()
}

/// How many markers of `s` have a value below `v`.
pub open spec fn rank(s: Seq<Rollback>, v: u64) -> nat
    decreases s.len(),
{
    if s.len() == 0 {
        0
    } else {
        rank(s.drop_last(), v) + if s.last().value() < v {
            1nat
        } else {
            0nat
        }
    }
}

/// `s` with `r` placed after every marker of smaller value.
pub open spec fn insert_sorted(s: Seq<Rollback>, r: Rollback) -> Seq<Rollback> {
    s.insert(rank(s, r.value()) as int, r)
}

/// Where the markers of value below `v` end, in a sequence that is sorted.
pub proof fn lemma_rank_splits(s: Seq<Rollback>, v: u64)
    requires
        strictly_sorted(s),
    ensures
        rank(s, v) <= s.len(),
        forall|j: int| 0 <= j < rank(s, v) ==> s[j].value() < v,
        forall|j: int| rank(s, v) <= j < s.len() ==> s[j].value() >= v,
    decreases s.len(),
{
    if s.len() > 0 {
        let t = s.drop_last();
        assert(strictly_sorted(t));
        lemma_rank_splits(t, v);
        assert(forall|j: int| 0 <= j < t.len() ==> s[j] == t[j]);
        if s.last().value() < v && rank(t, v) < t.len() {
            assert(t[rank(t, v) as int].value() < s.last().value());
        }
    }
}

/// A position that splits a sequence into the markers of value below `v` and
/// the others is the rank of `v` in it.
pub proof fn lemma_rank_at_split(s: Seq<Rollback>, v: u64, k: int)
    requires
        0 <= k <= s.len(),
        forall|j: int| 0 <= j < k ==> s[j].value() < v,
        forall|j: int| k <= j < s.len() ==> s[j].value() >= v,
    ensures
        rank(s, v) == k,
    decreases s.len(),
{
    if s.len() > 0 {
        let t = s.drop_last();
        if k == s.len() {
            lemma_rank_at_split(t, v, k - 1);
        } else {
            lemma_rank_at_split(t, v, k);
        }
    }
}

/// Gives every registered [`Rollback`] a stable index that follows the markers' order.
pub struct RollbackOrdered {
    order: OrderIndex,
    sorted: Vec<Rollback>,
}

impl View for RollbackOrdered {
    type V = Seq<Rollback>;

    /// The registered markers, in order.
    closed spec fn view(&self) -> Seq<Rollback> {
        self.sorted@
    }
}

impl RollbackOrdered {
    /// The position recorded for each registered marker's value.
    pub closed spec fn index_of(&self) -> Map<u64, usize> {
        index_entries(self.order)
    }

    /// The markers are sorted without duplicates, and the index records for
    /// each marker's value its position, and nothing else.
    pub open spec fn wf(&self) -> bool {
        &&& strictly_sorted(self@)
        &&& forall|i: int|
            0 <= i < self@.len() ==> #[trigger] self.index_of().contains_key(self@[i].value())
                && self.index_of()[self@[i].value()] == i
        &&& forall|k: u64| #[trigger]
            self.index_of().contains_key(k) ==> self.index_of()[k] < self@.len()
                && self@[self.index_of()[k] as int].value() == k
    }

    /// Makes a registry with no marker.
    pub fn new() -> (r: RollbackOrdered)
        ensures
            r.wf(),
            r@ == Seq::<Rollback>::empty(),
    {
        RollbackOrdered { order: OrderIndex::new(), sorted: Vec::new() }
    }

    /// Registers a marker. A new one goes after every marker of smaller value,
    /// and the markers of greater value move one place up; registering a marker
    /// again changes nothing. Returns the marker's position.
    pub fn push(&mut self, rollback: Rollback) -> (pos: usize)
        requires
            old(self).wf(),
        ensures
            final(self).wf(),
            pos == rank(old(self)@, rollback.value()),
            !old(self)@.contains(rollback) ==> final(self)@ == insert_sorted(old(self)@, rollback),
            old(self)@.contains(rollback) ==> *final(self) == *old(self),
    {
        if let Some(i) = self.try_order(rollback) {
            proof {
                let s = self@;
                assert forall|j: int| 0 <= j < i implies s[j].value() < rollback.value() by {
                    assert(s[j].value() < s[i as int].value());
                }
                assert forall|j: int| i <= j < s.len() implies s[j].value() >= rollback.value() by {
                    if j > i {
                        assert(s[i as int].value() < s[j].value());
                    }
                }
                lemma_rank_at_split(s, rollback.value(), i as int);
            }
            return i;
        }
        let ghost s0 = self.sorted@;
        let ghost m0 = index_entries(self.order);
        proof {
            assert(s0 == old(self)@);
            assert(m0 == old(self).index_of());
            lemma_rank_splits(s0, rollback.value());
        }
        // Markers mostly come in increasing order, so the new one usually
        // stays at the back; otherwise it moves down past each greater one.
        self.sorted.push(rollback);
        let mut i: usize = self.sorted.len() - 1;
        while i > 0 && self.sorted[i - 1].bits > rollback.bits
            invariant
                i <= s0.len(),
                self.sorted@ == s0.insert(i as int, rollback),
                strictly_sorted(s0),
                forall|j: int|
                    0 <= j < s0.len() ==> #[trigger] m0.contains_key(s0[j].value()) && m0[s0[j].value()]
                        == j,
                forall|k: u64| #[trigger]
                    m0.contains_key(k) ==> m0[k] < s0.len() && s0[m0[k] as int].value() == k,
                forall|j: int| i <= j < s0.len() ==> s0[j].value() > rollback.value(),
                index_entries(self.order).dom() == m0.dom(),
                forall|j: int|
                    0 <= j < i ==> index_entries(self.order)[s0[j].value()] == m0[s0[j].value()],
                forall|j: int|
                    i <= j < s0.len() ==> index_entries(self.order)[s0[j].value()] == j + 1,
            decreases i,
        {
            let moved = self.sorted[i - 1];
            self.sorted.set(i, moved);
            self.sorted.set(i - 1, rollback);
            self.order.insert(moved.bits, i);
            i = i - 1;
            proof {
                assert forall|j: int| 0 <= j < i implies s0[j].value() != moved.value() by {
                    assert(s0[j].value() < s0[i as int].value());
                }
                assert(self.sorted@ =~= s0.insert(i as int, rollback));
            }
        }
        self.order.insert(rollback.bits, i);
        proof {
            let s1 = self.sorted@;
            let m1 = index_entries(self.order);
            if i > 0 {
                assert(s0[i - 1] != rollback);
                assert(s0[i - 1].value() < rollback.value());
            }
            assert forall|j: int| 0 <= j < i implies s0[j].value() < rollback.value() by {
                if j < i - 1 {
                    assert(s0[j].value() < s0[i - 1].value());
                }
            }
            lemma_rank_at_split(s0, rollback.value(), i as int);
            assert forall|a: int, b: int| 0 <= a < b < s1.len() implies s1[a].value()
                < s1[b].value() by {
                if b < i || a > i {
                } else if a == i || b == i {
                } else {
                }
            }
            assert forall|p: int| 0 <= p < s1.len() implies #[trigger] m1.contains_key(
                s1[p].value(),
            ) && m1[s1[p].value()] == p by {
                if p < i {
                    assert(m0.contains_key(s0[p].value()));
                    assert(s0[p].value() != rollback.value());
                } else if p > i {
                    assert(m0.contains_key(s0[p - 1].value()));
                    assert(s1[p] == s0[p - 1]);
                }
            }
            assert forall|k: u64| #[trigger] m1.contains_key(k) implies m1[k] < s1.len()
                && s1[m1[k] as int].value() == k by {
                if k != rollback.value() {
                    assert(m0.contains_key(k));
                    let j = m0[k] as int;
                    assert(s0[j].value() == k);
                    if j < i {
                    } else {
                        assert(s1[j + 1] == s0[j]);
                    }
                }
            }
        }
        i
    }

    /// The position of `rollback`, or `None` where it was never registered.
    pub fn try_order(&self, rollback: Rollback) -> (r: Option<usize>)
        requires
            self.wf(),
        ensures
            r.is_none() <==> !self@.contains(rollback),
            r matches Some(i) ==> i < self@.len() && self@[i as int] == rollback,
    {
        let r = self.order.get(rollback.bits);
        proof {
            if self@.contains(rollback) {
                let i = choose|i: int| 0 <= i < self@.len() && self@[i] == rollback;
                assert(self.index_of().contains_key(self@[i].value()));
            }
            if r.is_some() {
                let i = r.unwrap() as int;
                assert(self.index_of().contains_key(rollback.value()));
                assert(self@[i].value() == rollback.value());
                assert(self@[i] == rollback);
            }
        }
        r
    }

    /// The position of a registered `rollback`: a unique index that keeps to
    /// the markers' order.
    pub fn order(&self, rollback: Rollback) -> (r: usize)
        requires
            self.wf(),
            self@.contains(rollback),
        ensures
            r < self@.len(),
            self@[r as int] == rollback,
    {
        self.try_order(rollback).unwrap()
    }

    /// Every marker ever registered, in order.
    pub fn iter_sorted(&self) -> (r: Vec<Rollback>)
        ensures
            r@ == self@,
    {
        let mut out: Vec<Rollback> = Vec::with_capacity(self.sorted.len());
        let mut i: usize = 0;
        while i < self.sorted.len()
            invariant
                i <= self.sorted@.len(),
                out@ == self.sorted@.subrange(0, i as int),
            decreases self.sorted@.len() - i,
        {
            out.push(self.sorted[i]);
            i = i + 1;
            proof {
                assert(out@ =~= self.sorted@.subrange(0, i as int));
            }
        }
        proof {
            assert(out@ =~= self.sorted@);
        }
        out
    }
}

impl Default for RollbackOrdered {
    fn default() -> (r: RollbackOrdered)
        ensures
            r.wf(),
            r@ == Seq::<Rollback>::empty(),
    {
        RollbackOrdered::new()
    }
}

/// Registering a new marker keeps the markers sorted by value, with no duplicates.
pub proof fn lemma_insert_sorted_keeps_sorted(s: Seq<Rollback>, rollback: Rollback)
    requires
        strictly_sorted(s),
        !s.contains(rollback),
    ensures
        strictly_sorted(insert_sorted(s, rollback)),
{
    let v = rollback.value();
    lemma_rank_splits(s, v);
    let k = rank(s, v) as int;
    let t = insert_sorted(s, rollback);
    if k < s.len() {
        assert(s[k] != rollback);
    }
    assert forall|a: int, b: int| 0 <= a < b < t.len() implies t[a].value() < t[b].value() by {
        if b <= k || a > k {
        } else if a == k {
            assert(s[b - 1] != rollback);
            assert(s[k].value() <= s[b - 1].value());
        } else {
        }
    }
}

/// A marker that was never registered has no position: no place of the order
/// holds it and the index records nothing for its value.
pub proof fn lemma_unregistered_has_no_index(reg: RollbackOrdered, rollback: Rollback)
    requires
        reg.wf(),
        !reg@.contains(rollback),
    ensures
        !reg.index_of().contains_key(rollback.value()),
        forall|i: int| 0 <= i < reg@.len() ==> reg@[i] != rollback,
{
    if reg.index_of().contains_key(rollback.value()) {
        let i = reg.index_of()[rollback.value()] as int;
        assert(reg@[i] == rollback);
    }
}

/// The index of every registered marker is its position in the order.
pub proof fn lemma_index_is_position(reg: RollbackOrdered, i: int)
    requires
        reg.wf(),
        0 <= i < reg@.len(),
    ensures
        reg.index_of().contains_key(reg@[i].value()),
        reg.index_of()[reg@[i].value()] == i,
{
    assert(reg.index_of().contains_key(reg@[i].value()));
}

/// A registration moves up by one the index of each marker of greater value
/// than the new one, and leaves the others where they were.
pub proof fn lemma_push_shifts_greater(before: RollbackOrdered, rollback: Rollback, after: RollbackOrdered)
    requires
        before.wf(),
        !before@.contains(rollback),
        after.wf(),
        after@ == insert_sorted(before@, rollback),
    ensures
        forall|i: int|
            0 <= i < before@.len() ==> #[trigger] after.index_of()[before@[i].value()] == if before@[i].value()
                > rollback.value() {
                before.index_of()[before@[i].value()] + 1
            } else {
                before.index_of()[before@[i].value()] as int
            },
{
    let s = before@;
    let v = rollback.value();
    lemma_rank_splits(s, v);
    let k = rank(s, v) as int;
    assert forall|i: int| 0 <= i < s.len() implies #[trigger] after.index_of()[s[i].value()] == if s[i].value()
        > v {
        before.index_of()[s[i].value()] + 1
    } else {
        before.index_of()[s[i].value()] as int
    } by {
        assert(before.index_of().contains_key(s[i].value()));
        if i < k {
            assert(after@[i] == s[i]);
            assert(after.index_of().contains_key(after@[i].value()));
        } else {
            assert(s[i] != rollback);
            assert(after@[i + 1] == s[i]);
            assert(after.index_of().contains_key(after@[i + 1].value()));
        }
    }
}

/// Registering a marker of value at least that of every registered one keeps
/// the index of every registered marker.
pub proof fn lemma_push_greatest_keeps_order(
    before: RollbackOrdered,
    rollback: Rollback,
    after: RollbackOrdered,
)
    requires
        before.wf(),
        !before@.contains(rollback),
        forall|i: int| 0 <= i < before@.len() ==> before@[i].value() <= rollback.value(),
        after.wf(),
        after@ == insert_sorted(before@, rollback),
    ensures
        forall|i: int|
            0 <= i < before@.len() ==> #[trigger] after.index_of()[before@[i].value()]
                == before.index_of()[before@[i].value()],
{
    lemma_push_shifts_greater(before, rollback, after);
    assert forall|i: int| 0 <= i < before@.len() implies #[trigger] after.index_of()[before@[i].value()]
        == before.index_of()[before@[i].value()] by {
        assert(after.index_of()[before@[i].value()] == if before@[i].value() > rollback.value() {
            before.index_of()[before@[i].value()] + 1
        } else {
            before.index_of()[before@[i].value()] as int
        });
    }
}

} // verus!
