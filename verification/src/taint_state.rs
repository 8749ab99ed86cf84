//! The taint lattice: one bit per variable of a function body.

use vstd::prelude::*;

verus! {

/// Pointwise OR of two bit vectors over the same variables.
pub open spec fn join_bits(a: Seq<bool>, b: Seq<bool>) -> Seq<bool>
    recommends
        a.len() == b.len(),
{
    Seq::new(a.len(), |i: int| a[i] || b[i])
}

/// `a` is below `b` in the lattice: every variable tainted in `a` is tainted in `b`.
pub open spec fn bits_le(a: Seq<bool>, b: Seq<bool>) -> bool {
    &&& a.len() == b.len()
    &&& forall|i: int| 0 <= i < a.len() && #[trigger] a[i] ==> b[i]
}

/// The order of the lattice is transitive.
pub proof fn lemma_bits_le_transitive(a: Seq<bool>, b: Seq<bool>, c: Seq<bool>)
    requires
        bits_le(a, b),
        bits_le(b, c),
    ensures
        bits_le(a, c),
{
    assert forall|i: int| 0 <= i < a.len() && #[trigger] a[i] implies c[i] by {
        assert(b[i]);
    }
}

/// The variables that a bit vector marks as tainted.
pub open spec fn tainted_vars(a: Seq<bool>) -> Set<int> {
    Set::new(|i: int| 0 <= i < a.len() && a[i])
}

/// The number of variables that a bit vector leaves untainted.
pub open spec fn clear_count(a: Seq<bool>) -> nat
    decreases a.len(),
{
    if a.len() == 0 {
        0
    } else {
        clear_count(a.drop_last()) + if a.last() {
            0nat
        } else {
            1nat
        }
    }
}

/// Setting a clear bit lowers the count of clear bits by one.
pub proof fn lemma_clear_count_set(a: Seq<bool>, i: int)
    requires
        0 <= i < a.len(),
        !a[i],
    ensures
        clear_count(a.update(i, true)) + 1 == clear_count(a),
    decreases a.len(),
{
    let b = a.update(i, true);
    if i == a.len() - 1 {
        assert(b.drop_last() =~= a.drop_last());
    } else {
        assert(b.drop_last() =~= a.drop_last().update(i, true));
        lemma_clear_count_set(a.drop_last(), i);
    }
}

/// A vector above another one has at most as many clear bits, and fewer if they differ.
pub proof fn lemma_clear_count_le(a: Seq<bool>, b: Seq<bool>)
    requires
        bits_le(a, b),
    ensures
        clear_count(b) <= clear_count(a),
        a != b ==> clear_count(b) < clear_count(a),
    decreases a.len(),
{
    if a.len() > 0 {
        let a0 = a.drop_last();
        let b0 = b.drop_last();
        assert(bits_le(a0, b0)) by {
            assert forall|i: int| 0 <= i < a0.len() && #[trigger] a0[i] implies b0[i] by {
                assert(a[i]);
            }
        }
        lemma_clear_count_le(a0, b0);
        assert(a.last() ==> b.last()) by {
            if a.last() {
                assert(a[a.len() - 1]);
            }
        }
        if a != b {
            if a0 == b0 && a.last() == b.last() {
                assert(a =~= a0.push(a.last()));
                assert(b =~= b0.push(b.last()));
            }
        }
    } else {
        assert(a =~= b);
    }
}

/// The join of `base` with all of `states`, one after the other.
pub open spec fn join_all(base: Seq<bool>, states: Seq<Seq<bool>>) -> Seq<bool>
    decreases states.len(),
{
    if states.len() == 0 {
        base
    } else {
        join_bits(join_all(base, states.drop_last()), states.last())
    }
}

/// The join does not depend on the order of its arguments.
pub proof fn lemma_join_commutative(a: Seq<bool>, b: Seq<bool>)
    requires
        a.len() == b.len(),
    ensures
        join_bits(a, b) == join_bits(b, a),
{
    assert(join_bits(a, b) =~= join_bits(b, a));
}

/// Joins can be grouped at will.
pub proof fn lemma_join_associative(a: Seq<bool>, b: Seq<bool>, c: Seq<bool>)
    requires
        a.len() == b.len(),
        b.len() == c.len(),
    ensures
        join_bits(join_bits(a, b), c) == join_bits(a, join_bits(b, c)),
{
    assert(join_bits(join_bits(a, b), c) =~= join_bits(a, join_bits(b, c)));
}

/// The join is above both of its arguments: it taints exactly the variables
/// that one of them taints.
pub proof fn lemma_join_monotone(a: Seq<bool>, b: Seq<bool>)
    requires
        a.len() == b.len(),
    ensures
        bits_le(a, join_bits(a, b)),
        bits_le(b, join_bits(a, b)),
        tainted_vars(join_bits(a, b)) == tainted_vars(a).union(tainted_vars(b)),
{
    assert(tainted_vars(join_bits(a, b)) =~= tainted_vars(a).union(tainted_vars(b)));
}

/// The join gives no more than any state that is above both arguments.
pub proof fn lemma_join_least(a: Seq<bool>, b: Seq<bool>, above: Seq<bool>)
    requires
        bits_le(a, above),
        bits_le(b, above),
    ensures
        bits_le(join_bits(a, b), above),
{
    assert forall|i: int| 0 <= i < a.len() && #[trigger] join_bits(a, b)[i] implies above[i] by {
        if a[i] {
        } else {
            assert(b[i]);
        }
    }
}

/// A variable is tainted in the join of many states if and only if it is
/// tainted in the base or in one of the states.
pub proof fn lemma_join_all_bits(base: Seq<bool>, states: Seq<Seq<bool>>)
    requires
        forall|k: int| 0 <= k < states.len() ==> (#[trigger] states[k]).len() == base.len(),
    ensures
        join_all(base, states).len() == base.len(),
        forall|i: int|
            0 <= i < base.len() ==> (#[trigger] join_all(base, states)[i] <==> (base[i]
                || exists|k: int| 0 <= k < states.len() && (#[trigger] states[k])[i])),
    decreases states.len(),
{
    if states.len() > 0 {
        let front = states.drop_last();
        lemma_join_all_bits(base, front);
        assert forall|i: int| 0 <= i < base.len() implies (#[trigger] join_all(base, states)[i]
            <==> (base[i] || exists|k: int| 0 <= k < states.len() && (#[trigger] states[k])[i])) by {
            if join_all(base, front)[i] && !base[i] {
                let k = choose|k: int| 0 <= k < front.len() && (#[trigger] front[k])[i];
                assert(states[k][i]);
            }
            if states.last()[i] {
                assert(states[states.len() - 1][i]);
            }
            if exists|k: int| 0 <= k < states.len() && (#[trigger] states[k])[i] {
                let k = choose|k: int| 0 <= k < states.len() && (#[trigger] states[k])[i];
                if k < front.len() {
                    assert(front[k][i]);
                }
            }
        }
    }
}

/// The states of the predecessors of a block can be joined in any order: two
/// lists that hold the same states give the same join.
pub proof fn lemma_join_all_any_order(base: Seq<bool>, first: Seq<Seq<bool>>, second: Seq<Seq<bool>>)
    requires
        forall|k: int| 0 <= k < first.len() ==> (#[trigger] first[k]).len() == base.len(),
        first.to_multiset() == second.to_multiset(),
    ensures
        join_all(base, first) == join_all(base, second),
{
    first.to_multiset_ensures();
    second.to_multiset_ensures();
    assert forall|k: int| 0 <= k < second.len() implies (#[trigger] second[k]).len()
        == base.len() by {
        assert(second.contains(second[k]));
        assert(first.to_multiset().count(second[k]) > 0);
        assert(first.contains(second[k]));
    }
    lemma_join_all_bits(base, first);
    lemma_join_all_bits(base, second);
    assert forall|i: int| 0 <= i < base.len() implies join_all(base, first)[i] == join_all(
        base,
        second,
    )[i] by {
        if exists|k: int| 0 <= k < first.len() && (#[trigger] first[k])[i] {
            let k = choose|k: int| 0 <= k < first.len() && (#[trigger] first[k])[i];
            assert(first.contains(first[k]));
            assert(second.to_multiset().count(first[k]) > 0);
            assert(second.contains(first[k]));
            let j = choose|j: int| 0 <= j < second.len() && second[j] == first[k];
            assert(second[j][i]);
        }
        if exists|k: int| 0 <= k < second.len() && (#[trigger] second[k])[i] {
            let k = choose|k: int| 0 <= k < second.len() && (#[trigger] second[k])[i];
            assert(second.contains(second[k]));
            assert(first.to_multiset().count(second[k]) > 0);
            assert(first.contains(second[k]));
            let j = choose|j: int| 0 <= j < first.len() && first[j] == second[k];
            assert(first[j][i]);
        }
    }
    assert(join_all(base, first) =~= join_all(base, second));
}

/// The set of possibly tainted variables at one program point.
///
/// Bit `v` is set when variable `v` may carry a taint. Variable 0 is the return
/// value of the body that the state belongs to.
#[derive(Debug)]
pub struct TaintState {
    pub bits: Vec<bool>,
}

impl View for TaintState {
    type V = Seq<bool>;

    open spec fn view(&self) -> Seq<bool> {
        self.bits@
    }
}

impl TaintState {
    /// The bottom of the lattice over `domain_size` variables: nothing is tainted.
    pub fn new_empty(domain_size: usize) -> (state: TaintState)
        ensures
            state@ == Seq::new(domain_size as nat, |i: int| false),
    {
        let mut bits: Vec<bool> = Vec::new();
        let mut i: usize = 0;
        while i < domain_size
            invariant
                i <= domain_size,
                bits@ =~= Seq::new(i as nat, |j: int| false),
            decreases domain_size - i,
        {
            bits.push(false);
            i = i + 1;
        }
        TaintState { bits }
    }

    /// The number of variables that the state ranges over.
    pub fn domain_size(&self) -> (n: usize)
        ensures
            n == self@.len(),
    {
        self.bits.len()
    }

    /// Whether variable `v` is possibly tainted.
    pub fn get_taint(&self, v: usize) -> (tainted: bool)
        requires
            v < self@.len(),
        ensures
            tainted == self@[v as int],
    {
        self.bits[v]
    }

    /// Overwrites the taint of the single variable `v`.
    pub fn set_bit(&mut self, v: usize, tainted: bool)
        requires
            v < old(self)@.len(),
        ensures
            final(self)@ == old(self)@.update(v as int, tainted),
    {
        self.bits[v] = tainted;
    }

    /// A copy of the state.
    pub fn duplicate(&self) -> (copy: TaintState)
        ensures
            copy@ == self@,
    {
        let mut bits: Vec<bool> = Vec::new();
        let mut i: usize = 0;
        while i < self.bits.len()
            invariant
                i <= self.bits.len(),
                bits@ =~= self.bits@.take(i as int),
            decreases self.bits.len() - i,
        {
            bits.push(self.bits[i]);
            i = i + 1;
        }
        assert(self.bits@.take(self.bits@.len() as int) =~= self.bits@);
        TaintState { bits }
    }

    /// Whether two states mark the same variables.
    pub fn same_as(&self, other: &TaintState) -> (same: bool)
        ensures
            same == (self@ == other@),
    {
        if self.bits.len() != other.bits.len() {
            return false;
        }
        let mut i: usize = 0;
        while i < self.bits.len()
            invariant
                i <= self.bits.len(),
                self.bits.len() == other.bits.len(),
                forall|j: int| 0 <= j < i ==> self.bits@[j] == other.bits@[j],
            decreases self.bits.len() - i,
        {
            if self.bits[i] != other.bits[i] {
                return false;
            }
            i = i + 1;
        }
        assert(self@ =~= other@);
        true
    }

    /// Joins `other` into this state (set union) and reports whether this state grew.
    pub fn join(&mut self, other: &TaintState) -> (changed: bool)
        requires
            old(self)@.len() == other@.len(),
        ensures
            final(self)@ == join_bits(old(self)@, other@),
            changed == (final(self)@ != old(self)@),
    {
        let ghost before = self.bits@;
        let mut changed = false;
        let mut i: usize = 0;
        while i < self.bits.len()
            invariant
                i <= self.bits.len(),
                self.bits.len() == other.bits.len(),
                self.bits.len() == before.len(),
                forall|j: int| 0 <= j < i ==> #[trigger] self.bits@[j] == (before[j] || other.bits@[j]),
                forall|j: int| i <= j < self.bits.len() ==> #[trigger] self.bits@[j] == before[j],
                changed == exists|j: int| 0 <= j < i && #[trigger] self.bits@[j] != before[j],
            decreases self.bits.len() - i,
        {
            if other.bits[i] && !self.bits[i] {
                self.bits[i] = true;
                changed = true;
                assert(self.bits@[i as int] != before[i as int]);
            }
            i = i + 1;
        }
        assert(self@ =~= join_bits(before, other@));
        if !changed {
            assert(self@ =~= before);
        }
        changed
    }
}

} // verus!
