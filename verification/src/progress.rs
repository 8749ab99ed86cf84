//! Why nested analyses come to an end: the keys that the summary cache can still take.
//!
//! A nested analysis starts only after its key has entered the cache, and no key
//! ever leaves. The keys that can occur are finitely many, so the number of keys
//! that are still absent bounds the depth of nesting.

use vstd::prelude::*;
use vstd::set_lib::{lemma_len_subset, lemma_set_subset_finite};
use crate::contexts::ContextKey;

verus! {

/// The keys that can occur in a program of `functions` functions: a function of
/// the program with a taint pattern for an argument list that fits in memory.
pub open spec fn possible_keys(functions: nat) -> Set<ContextKey> {
    Set::new(|k: ContextKey| 0 <= k.0 < functions && k.1.len() <= usize::MAX)
}

/// The number of possible keys that a cache with the keys `present` does not hold.
pub open spec fn absent_keys(functions: nat, present: Set<ContextKey>) -> nat {
    possible_keys(functions).difference(present).len()
}

spec fn patterns_of(n: nat) -> Set<Seq<Option<bool>>>
    decreases n,
{
    if n == 0 {
        set![Seq::<Option<bool>>::empty()]
    } else {
        let shorter = patterns_of((n - 1) as nat);
        shorter.map(|s: Seq<Option<bool>>| s.push(None)).union(
            shorter.map(|s: Seq<Option<bool>>| s.push(Some(true))),
        ).union(shorter.map(|s: Seq<Option<bool>>| s.push(Some(false))))
    }
}

proof fn lemma_patterns_of(n: nat)
    ensures
        patterns_of(n).finite(),
        forall|s: Seq<Option<bool>>| s.len() == n ==> #[trigger] patterns_of(n).contains(s),
    decreases n,
{
    if n == 0 {
        assert forall|s: Seq<Option<bool>>| s.len() == 0 implies #[trigger] patterns_of(
            n,
        ).contains(s) by {
            assert(s =~= Seq::<Option<bool>>::empty());
        }
    } else {
        let shorter = patterns_of((n - 1) as nat);
        lemma_patterns_of((n - 1) as nat);
        let f0 = |s: Seq<Option<bool>>| s.push(None);
        let f1 = |s: Seq<Option<bool>>| s.push(Some(true));
        let f2 = |s: Seq<Option<bool>>| s.push(Some(false));
        shorter.lemma_map_finite(f0);
        shorter.lemma_map_finite(f1);
        shorter.lemma_map_finite(f2);
        assert(patterns_of(n) == shorter.map(f0).union(shorter.map(f1)).union(shorter.map(f2)));
        assert forall|s: Seq<Option<bool>>| s.len() == n implies #[trigger] patterns_of(
            n,
        ).contains(s) by {
            let head = s.drop_last();
            assert(shorter.contains(head));
            assert(s =~= head.push(s.last()));
            match s.last() {
                None => {
                    assert(f0(head) == s);
                    assert(shorter.map(f0).contains(s));
                },
                Some(true) => {
                    assert(f1(head) == s);
                    assert(shorter.map(f1).contains(s));
                },
                Some(false) => {
                    assert(f2(head) == s);
                    assert(shorter.map(f2).contains(s));
                },
            }
        }
    }
}

spec fn patterns_up_to(n: nat) -> Set<Seq<Option<bool>>>
    decreases n,
{
    if n == 0 {
        patterns_of(0)
    } else {
        patterns_up_to((n - 1) as nat).union(patterns_of(n))
    }
}

proof fn lemma_patterns_up_to(n: nat)
    ensures
        patterns_up_to(n).finite(),
        forall|s: Seq<Option<bool>>| s.len() <= n ==> #[trigger] patterns_up_to(n).contains(s),
    decreases n,
{
    lemma_patterns_of(n);
    if n > 0 {
        lemma_patterns_up_to((n - 1) as nat);
    }
}

spec fn keys_below(functions: nat) -> Set<ContextKey>
    decreases functions,
{
    if functions == 0 {
        Set::empty()
    } else {
        keys_below((functions - 1) as nat).union(
            patterns_up_to(usize::MAX as nat).map(
                |s: Seq<Option<bool>>| ((functions - 1) as int, s),
            ),
        )
    }
}

proof fn lemma_keys_below(functions: nat)
    ensures
        keys_below(functions).finite(),
        possible_keys(functions).subset_of(keys_below(functions)),
    decreases functions,
{
    if functions > 0 {
        lemma_keys_below((functions - 1) as nat);
        lemma_patterns_up_to(usize::MAX as nat);
        let pair = |s: Seq<Option<bool>>| ((functions - 1) as int, s);
        patterns_up_to(usize::MAX as nat).lemma_map_finite(pair);
        assert forall|k: ContextKey| possible_keys(functions).contains(k) implies keys_below(
            functions,
        ).contains(k) by {
            if k.0 == functions - 1 {
                assert(patterns_up_to(usize::MAX as nat).contains(k.1));
                assert(pair(k.1) == k);
                assert(patterns_up_to(usize::MAX as nat).map(pair).contains(k));
            } else {
                assert(possible_keys((functions - 1) as nat).contains(k));
            }
        }
    }
}

/// Only finitely many keys can occur.
pub proof fn lemma_possible_keys_finite(functions: nat)
    ensures
        possible_keys(functions).finite(),
{
    lemma_keys_below(functions);
    lemma_set_subset_finite(keys_below(functions), possible_keys(functions));
}

/// A cache that has gained keys has no more keys left to take than before.
pub proof fn lemma_absent_keys_shrink(
    functions: nat,
    before: Set<ContextKey>,
    after: Set<ContextKey>,
)
    requires
        before.subset_of(after),
    ensures
        absent_keys(functions, after) <= absent_keys(functions, before),
{
    lemma_possible_keys_finite(functions);
    let all = possible_keys(functions);
    lemma_set_subset_finite(all, all.difference(before));
    lemma_len_subset(all.difference(after), all.difference(before));
}

/// A possible key that enters the cache leaves one key less to take.
pub proof fn lemma_absent_keys_insert(functions: nat, present: Set<ContextKey>, key: ContextKey)
    requires
        possible_keys(functions).contains(key),
        !present.contains(key),
    ensures
        absent_keys(functions, present.insert(key)) < absent_keys(functions, present),
{
    lemma_possible_keys_finite(functions);
    let all = possible_keys(functions);
    let before = all.difference(present);
    let after = all.difference(present.insert(key));
    lemma_set_subset_finite(all, before);
    assert(before.contains(key));
    assert(after =~= before.remove(key));
}

} // verus!
