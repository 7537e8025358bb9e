//! The consistency validator: a state that declares the same action in two
//! of its edges is ambiguous — the dispatcher would need two arms for one
//! action — so the whole specification is rejected before generation.

use vstd::prelude::*;
use crate::ast::{
    BlockV, Specification, StateBlock, all_consistent, block_action_occ, consistent,
    edge_actions_pre,
};
use crate::idents::{copy_id, ids_eq, seq_views};

verus! {

broadcast use crate::idents::lemma_seq_views_push, crate::idents::lemma_seq_views_add;

/// Reported when one state declares the same action more than once; it
/// names the offending state.
#[derive(Debug)]
pub struct DuplicateActionError {
    pub state: Vec<u8>,
}

/// The least index below `k` of an inconsistent block.
pub open spec fn find_inconsistent(blocks: Seq<BlockV>, k: int) -> Option<int>
    decreases k,
{
    if k <= 0 {
        None
    } else if find_inconsistent(blocks, k - 1) is Some {
        find_inconsistent(blocks, k - 1)
    } else if !consistent(blocks[k - 1]) {
        Some(k - 1)
    } else {
        None
    }
}

proof fn lemma_find_inconsistent_mono(blocks: Seq<BlockV>, k1: int, k2: int)
    requires
        k1 <= k2,
        find_inconsistent(blocks, k1) is Some,
    ensures
        find_inconsistent(blocks, k2) == find_inconsistent(blocks, k1),
    decreases k2,
{
    if k2 > k1 {
        lemma_find_inconsistent_mono(blocks, k1, k2 - 1);
    }
}

/// All action occurrences of one block, flattened in declaration order.
fn flat_actions(b: &StateBlock) -> (v: Vec<Vec<u8>>)
    ensures
        seq_views(v@) == block_action_occ(b@),
{
    let mut v: Vec<Vec<u8>> = Vec::new();
    let mut j: usize = 0;
    while j < b.edges.len()
        invariant
            j <= b.edges.len(),
            seq_views(v@) == edge_actions_pre(b@.edges, j as int),
        decreases b.edges.len() - j,
    {
        let ghost acc0 = edge_actions_pre(b@.edges, j as int);
        let e = &b.edges[j];
        let mut k: usize = 0;
        while k < e.actions.len()
            invariant
                k <= e.actions.len(),
                seq_views(v@) == acc0 + e@.actions.take(k as int),
            decreases e.actions.len() - k,
        {
            proof {
                assert((acc0 + e@.actions.take(k as int)).push(e.actions@[k as int]@) =~= acc0
                    + e@.actions.take(k as int + 1));
            }
            v.push(copy_id(&e.actions[k]));
            k = k + 1;
        }
        proof {
            assert(acc0 + e@.actions.take(e@.actions.len() as int) =~= edge_actions_pre(
                b@.edges, j as int + 1)) by {
                assert(b@.edges[j as int] == e@);
                assert(e@.actions.take(e@.actions.len() as int) =~= e@.actions);
            }
        }
        j = j + 1;
    }
    v
}

/// Whether two equal identifiers stand at two different positions.
fn has_duplicate(v: &Vec<Vec<u8>>) -> (d: bool)
    ensures
        d == !seq_views(v@).no_duplicates(),
{
    let ghost sv = seq_views(v@);
    let mut i: usize = 0;
    while i < v.len()
        invariant
            i <= v.len(),
            sv == seq_views(v@),
            forall|p: int, q: int| 0 <= p < q < i ==> sv[p] != sv[q],
        decreases v.len() - i,
    {
        let mut j: usize = 0;
        while j < i
            invariant
                j <= i < v.len(),
                sv == seq_views(v@),
                forall|q: int| 0 <= q < j ==> sv[q] != sv[i as int],
            decreases i - j,
        {
            if ids_eq(&v[j], &v[i]) {
                proof {
                    assert(sv[j as int] == v@[j as int]@);
                    assert(sv[i as int] == v@[i as int]@);
                    assert(!sv.no_duplicates());
                }
                return true;
            }
            proof {
                assert(sv[j as int] == v@[j as int]@);
                assert(sv[i as int] == v@[i as int]@);
            }
            j = j + 1;
        }
        i = i + 1;
    }
    proof {
        assert forall|p: int, q: int|
            0 <= p < sv.len() && 0 <= q < sv.len() && p != q implies sv[p] != sv[q] by {
            if p < q {
                assert(sv[p] != sv[q]);
            } else {
                assert(sv[q] != sv[p]);
            }
        }
    }
    false
}

impl StateBlock {
    /// Whether the total count of action occurrences across this block's
    /// edges equals the count of distinct action identifiers — that is,
    /// whether no action is declared for two edges of this state.
    pub fn check_transitions_consistency(&self) -> (c: bool)
        ensures
            c == consistent(self@),
    {
        let flat = flat_actions(self);
        !has_duplicate(&flat)
    }
}

/// Rejects a specification in which some state declares one action in two
/// edges.  Succeeds exactly on fully consistent specifications; the error
/// names the first offending state.
pub fn validate_specification(sp: &Specification) -> (r: Result<(), DuplicateActionError>)
    ensures
        r is Ok <==> all_consistent(sp@.blocks),
        match r {
            Result::Ok(_) => find_inconsistent(sp@.blocks, sp@.blocks.len() as int) is None,
            Result::Err(e) => match find_inconsistent(sp@.blocks, sp@.blocks.len() as int) {
                Some(i) => e.state@ == sp@.blocks[i].state,
                None => false,
            },
        },
{
    let mut i: usize = 0;
    while i < sp.blocks.len()
        invariant
            i <= sp.blocks.len(),
            find_inconsistent(sp@.blocks, i as int) is None,
            forall|p: int| 0 <= p < i ==> consistent(#[trigger] sp@.blocks[p]),
        decreases sp.blocks.len() - i,
    {
        let ok = sp.blocks[i].check_transitions_consistency();
        proof {
            assert(sp@.blocks[i as int] == sp.blocks@[i as int]@);
        }
        if !ok {
            proof {
                assert(find_inconsistent(sp@.blocks, i as int + 1) == Some(i as int));
                lemma_find_inconsistent_mono(
                    sp@.blocks, i as int + 1, sp@.blocks.len() as int);
                assert(!all_consistent(sp@.blocks));
            }
            return Err(DuplicateActionError { state: copy_id(&sp.blocks[i].state) });
        }
        proof {
            assert(find_inconsistent(sp@.blocks, i as int + 1) is None);
        }
        i = i + 1;
    }
    Ok(())
}

} // verus!
