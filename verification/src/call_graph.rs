//! Which functions the analysis of a function can come to: the calls of
//! unclassified functions in its body, and the calls in theirs.

use vstd::prelude::*;
use vstd::set_lib::{lemma_int_range, lemma_len_subset, lemma_set_subset_finite, set_int_range};
use crate::mir::{BasicBlock, Classification, Program, TerminatorKind};

verus! {

/// The block ends in a call of the unclassified function `g`.
pub open spec fn calls_from_block(p: Program, block: BasicBlock, g: int) -> bool {
    match block.terminator.kind {
        TerminatorKind::Call(call) => call.callee == g && 0 <= g < p.functions@.len()
            && p.functions@[g].kind == Classification::Unclassified,
        _ => false,
    }
}

/// The body of function `f` holds a call of the unclassified function `g`.
pub open spec fn calls(p: Program, f: int, g: int) -> bool {
    &&& 0 <= f < p.functions@.len()
    &&& exists|b: int|
        0 <= b < p.functions@[f].body.blocks@.len() && calls_from_block(
            p,
            #[trigger] p.functions@[f].body.blocks@[b],
            g,
        )
}

/// Each function of the chain holds a call of the next.
pub open spec fn is_call_chain(p: Program, chain: Seq<int>) -> bool {
    &&& chain.len() > 0
    &&& forall|i: int| 0 <= i < chain.len() - 1 ==> calls(p, #[trigger] chain[i], chain[i + 1])
}

/// Function `g` is `f` itself, or the analysis of `f` may come to analyse `g`.
pub open spec fn reach(p: Program, f: int, g: int) -> bool {
    exists|chain: Seq<int>| #[trigger] is_call_chain(p, chain) && chain[0] == f && chain.last() == g
}

/// No function that `f` reaches, `f` included, can be reached from one of its
/// own callees: nothing that the analysis of `f` comes to is recursive.
pub open spec fn acyclic_from(p: Program, f: int) -> bool {
    forall|g: int, h: int| reach(p, f, g) && #[trigger] calls(p, g, h) ==> !reach(p, h, g)
}

/// The functions of the program that `f` reaches.
pub open spec fn reach_set(p: Program, f: int) -> Set<int> {
    Set::new(|g: int| 0 <= g < p.functions@.len() && reach(p, f, g))
}

/// The number of functions that `f` reaches.
pub open spec fn reach_count(p: Program, f: int) -> nat {
    reach_set(p, f).len()
}

/// Every function reaches itself.
pub proof fn lemma_reach_self(p: Program, f: int)
    ensures
        reach(p, f, f),
{
    let chain = seq![f];
    assert(is_call_chain(p, chain));
    assert(chain[0] == f && chain.last() == f);
}

/// A function reaches what its callees reach.
pub proof fn lemma_reach_through_callee(p: Program, f: int, g: int, h: int)
    requires
        calls(p, f, g),
        reach(p, g, h),
    ensures
        reach(p, f, h),
{
    let tail = choose|chain: Seq<int>| #[trigger]
        is_call_chain(p, chain) && chain[0] == g && chain.last() == h;
    let chain = seq![f] + tail;
    assert forall|i: int| 0 <= i < chain.len() - 1 implies calls(
        p,
        #[trigger] chain[i],
        chain[i + 1],
    ) by {
        if i == 0 {
            assert(chain[1] == tail[0]);
        } else {
            assert(chain[i] == tail[i - 1]);
            assert(chain[i + 1] == tail[i - 1 + 1]);
        }
    }
    assert(is_call_chain(p, chain));
    assert(chain[0] == f && chain.last() == h);
}

/// A function reaches the callees of what it reaches.
pub proof fn lemma_reach_callee(p: Program, f: int, g: int, h: int)
    requires
        reach(p, f, g),
        calls(p, g, h),
    ensures
        reach(p, f, h),
{
    let head = choose|chain: Seq<int>| #[trigger]
        is_call_chain(p, chain) && chain[0] == f && chain.last() == g;
    let chain = head.push(h);
    assert forall|i: int| 0 <= i < chain.len() - 1 implies calls(
        p,
        #[trigger] chain[i],
        chain[i + 1],
    ) by {
        if i < head.len() - 1 {
            assert(chain[i] == head[i]);
            assert(chain[i + 1] == head[i + 1]);
        }
    }
    assert(is_call_chain(p, chain));
    assert(chain[0] == f && chain.last() == h);
}

/// Reaching is transitive.
pub proof fn lemma_reach_transitive(p: Program, f: int, g: int, h: int)
    requires
        reach(p, f, g),
        reach(p, g, h),
    ensures
        reach(p, f, h),
{
    let tail = choose|chain: Seq<int>| #[trigger]
        is_call_chain(p, chain) && chain[0] == g && chain.last() == h;
    lemma_reach_along(p, f, tail, tail.len() - 1);
}

proof fn lemma_reach_along(p: Program, f: int, chain: Seq<int>, k: int)
    requires
        is_call_chain(p, chain),
        reach(p, f, chain[0]),
        0 <= k < chain.len(),
    ensures
        reach(p, f, chain[k]),
    decreases k,
{
    if k > 0 {
        lemma_reach_along(p, f, chain, k - 1);
        assert(calls(p, chain[k - 1], chain[k - 1 + 1]));
        lemma_reach_callee(p, f, chain[k - 1], chain[k]);
    }
}

/// A callee of a function that reaches nothing recursive reaches nothing
/// recursive, and reaches fewer functions than its caller.
pub proof fn lemma_callee_is_below(p: Program, f: int, g: int)
    requires
        acyclic_from(p, f),
        calls(p, f, g),
    ensures
        acyclic_from(p, g),
        reach_count(p, g) < reach_count(p, f),
        !reach(p, g, f),
{
    lemma_reach_self(p, f);
    assert forall|x: int, y: int| reach(p, g, x) && #[trigger] calls(p, x, y) implies !reach(
        p,
        y,
        x,
    ) by {
        lemma_reach_through_callee(p, f, g, x);
    }
    let all = set_int_range(0, p.functions@.len() as int);
    lemma_int_range(0, p.functions@.len() as int);
    let above = reach_set(p, f);
    let below = reach_set(p, g);
    lemma_set_subset_finite(all, above);
    assert(above.contains(f));
    assert forall|x: int| below.contains(x) implies above.remove(f).contains(x) by {
        lemma_reach_through_callee(p, f, g, x);
    }
    lemma_len_subset(below, above.remove(f));
}

} // verus!
