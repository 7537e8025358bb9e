//! The abstract syntax of a specification: named states, named actions,
//! and the transition edges declared for each state block.

use vstd::prelude::*;
use crate::idents::seq_views;

verus! {

/// One declared edge: if any action in `actions` arrives while the machine
/// is in the enclosing block's state, the handler may produce any state in
/// `targets`.
#[derive(Debug)]
pub struct TransitionEdge {
    pub actions: Vec<Vec<u8>>,
    pub targets: Vec<Vec<u8>>,
}

/// Mathematical view of a `TransitionEdge`.
pub struct EdgeV {
    pub actions: Seq<Seq<u8>>,
    pub targets: Seq<Seq<u8>>,
}

impl View for TransitionEdge {
    type V = EdgeV;

    open spec fn view(&self) -> EdgeV {
        EdgeV { actions: seq_views(self.actions@), targets: seq_views(self.targets@) }
    }
}

/// A state identifier together with its declared outgoing edges.
#[derive(Debug)]
pub struct StateBlock {
    pub state: Vec<u8>,
    pub edges: Vec<TransitionEdge>,
}

/// Mathematical view of a `StateBlock`.
pub struct BlockV {
    pub state: Seq<u8>,
    pub edges: Seq<EdgeV>,
}

impl View for StateBlock {
    type V = BlockV;

    open spec fn view(&self) -> BlockV {
        BlockV { state: self.state@, edges: seq_views(self.edges@) }
    }
}

/// A whole specification: the two generated-union names and the ordered
/// list of state blocks.
#[derive(Debug)]
pub struct Specification {
    pub state_name: Vec<u8>,
    pub action_name: Vec<u8>,
    pub blocks: Vec<StateBlock>,
}

/// Mathematical view of a `Specification`.
pub struct SpecV {
    pub state_name: Seq<u8>,
    pub action_name: Seq<u8>,
    pub blocks: Seq<BlockV>,
}

impl View for Specification {
    type V = SpecV;

    open spec fn view(&self) -> SpecV {
        SpecV {
            state_name: self.state_name@,
            action_name: self.action_name@,
            blocks: seq_views(self.blocks@),
        }
    }
}

/// `id` appears in the specification as a block's own state or as an edge
/// target: the state-variant set is exactly these identifiers.
pub open spec fn is_state_id_of(sp: SpecV, id: Seq<u8>) -> bool {
    ||| exists|i: int|
        0 <= i < sp.blocks.len() && #[trigger] sp.blocks[i].state == id
    ||| exists|i: int, j: int, k: int|
        0 <= i < sp.blocks.len()
        && 0 <= j < sp.blocks[i].edges.len()
        && 0 <= k < sp.blocks[i].edges[j].targets.len()
        && #[trigger] sp.blocks[i].edges[j].targets[k] == id
}

/// `id` appears in some edge's action alternatives: the action-variant set
/// is exactly these identifiers.
pub open spec fn is_action_id_of(sp: SpecV, id: Seq<u8>) -> bool {
    exists|i: int, j: int, k: int|
        0 <= i < sp.blocks.len()
        && 0 <= j < sp.blocks[i].edges.len()
        && 0 <= k < sp.blocks[i].edges[j].actions.len()
        && #[trigger] sp.blocks[i].edges[j].actions[k] == id
}

/// All target identifiers of the first `j` edges, in declaration order.
pub open spec fn edge_targets_pre(edges: Seq<EdgeV>, j: int) -> Seq<Seq<u8>>
    decreases j,
{
    if j <= 0 {
        seq![]
    } else {
        edge_targets_pre(edges, j - 1) + edges[j - 1].targets
    }
}

/// All action identifiers of the first `j` edges, in declaration order.
pub open spec fn edge_actions_pre(edges: Seq<EdgeV>, j: int) -> Seq<Seq<u8>>
    decreases j,
{
    if j <= 0 {
        seq![]
    } else {
        edge_actions_pre(edges, j - 1) + edges[j - 1].actions
    }
}

/// Every state identifier a block mentions: its own id, then each edge's
/// targets, in declaration order.
pub open spec fn block_state_occ(b: BlockV) -> Seq<Seq<u8>> {
    seq![b.state] + edge_targets_pre(b.edges, b.edges.len() as int)
}

/// Every action occurrence in a block, in declaration order.
pub open spec fn block_action_occ(b: BlockV) -> Seq<Seq<u8>> {
    edge_actions_pre(b.edges, b.edges.len() as int)
}

/// State occurrences of the first `i` blocks, in declaration order.
pub open spec fn state_occ_pre(blocks: Seq<BlockV>, i: int) -> Seq<Seq<u8>>
    decreases i,
{
    if i <= 0 {
        seq![]
    } else {
        state_occ_pre(blocks, i - 1) + block_state_occ(blocks[i - 1])
    }
}

/// Action occurrences of the first `i` blocks, in declaration order.
pub open spec fn action_occ_pre(blocks: Seq<BlockV>, i: int) -> Seq<Seq<u8>>
    decreases i,
{
    if i <= 0 {
        seq![]
    } else {
        action_occ_pre(blocks, i - 1) + block_action_occ(blocks[i - 1])
    }
}

/// Every state identifier the specification mentions, in declaration order.
pub open spec fn state_occurrences(sp: SpecV) -> Seq<Seq<u8>> {
    state_occ_pre(sp.blocks, sp.blocks.len() as int)
}

/// Every action occurrence in the specification, in declaration order.
pub open spec fn action_occurrences(sp: SpecV) -> Seq<Seq<u8>> {
    action_occ_pre(sp.blocks, sp.blocks.len() as int)
}

/// A block is consistent when no action identifier is declared for two of
/// its edges (nor twice in one edge).
pub open spec fn consistent(b: BlockV) -> bool {
    block_action_occ(b).no_duplicates()
}

pub open spec fn all_consistent(blocks: Seq<BlockV>) -> bool {
    forall|i: int| 0 <= i < blocks.len() ==> consistent(#[trigger] blocks[i])
}

/// The least index below `k` of a block whose state is `id`.
pub open spec fn find_block(blocks: Seq<BlockV>, k: int, id: Seq<u8>) -> Option<int>
    decreases k,
{
    if k <= 0 {
        None
    } else if find_block(blocks, k - 1, id) is Some {
        find_block(blocks, k - 1, id)
    } else if blocks[k - 1].state == id {
        Some(k - 1)
    } else {
        None
    }
}

/// The least index below `k` of an edge declaring action `a`.
pub open spec fn find_edge_in(edges: Seq<EdgeV>, k: int, a: Seq<u8>) -> Option<int>
    decreases k,
{
    if k <= 0 {
        None
    } else if find_edge_in(edges, k - 1, a) is Some {
        find_edge_in(edges, k - 1, a)
    } else if edges[k - 1].actions.contains(a) {
        Some(k - 1)
    } else {
        None
    }
}

/// The allowed-target set declared for `(s, a)`: the first block whose
/// state is `s` decides; within it, the first edge declaring `a`.
pub open spec fn ast_targets(sp: SpecV, s: Seq<u8>, a: Seq<u8>) -> Option<Seq<Seq<u8>>> {
    match find_block(sp.blocks, sp.blocks.len() as int, s) {
        None => None,
        Some(bi) => {
            let edges = sp.blocks[bi].edges;
            match find_edge_in(edges, edges.len() as int, a) {
                None => None,
                Some(ej) => Some(edges[ej].targets),
            }
        },
    }
}

/// Membership in a concatenation.
pub proof fn lemma_contains_add(a: Seq<Seq<u8>>, b: Seq<Seq<u8>>, x: Seq<u8>)
    ensures
        (a + b).contains(x) <==> a.contains(x) || b.contains(x),
{
    if a.contains(x) {
        let i = choose|i: int| 0 <= i < a.len() && a[i] == x;
        assert((a + b)[i] == x);
    }
    if b.contains(x) {
        let i = choose|i: int| 0 <= i < b.len() && b[i] == x;
        assert((a + b)[a.len() + i] == x);
    }
    if (a + b).contains(x) {
        let i = choose|i: int| 0 <= i < (a + b).len() && (a + b)[i] == x;
        if i < a.len() {
            assert(a[i] == x);
        } else {
            assert(b[i - a.len()] == x);
        }
    }
}

proof fn lemma_edge_targets_pre_contains(edges: Seq<EdgeV>, j: int, x: Seq<u8>)
    requires
        j <= edges.len(),
    ensures
        edge_targets_pre(edges, j).contains(x) <==> exists|p: int, q: int|
            0 <= p < j && 0 <= q < edges[p].targets.len() && #[trigger] edges[p].targets[q] == x,
    decreases j,
{
    if j > 0 {
        lemma_edge_targets_pre_contains(edges, j - 1, x);
        lemma_contains_add(edge_targets_pre(edges, j - 1), edges[j - 1].targets, x);
        if edges[j - 1].targets.contains(x) {
            let q = choose|q: int| 0 <= q < edges[j - 1].targets.len() && #[trigger] edges[j - 1].targets[q] == x;
            assert(edges[j - 1].targets[q] == x);
        }
        if exists|p: int, q: int|
            0 <= p < j && 0 <= q < edges[p].targets.len() && #[trigger] edges[p].targets[q] == x {
            let (p, q) = choose|p: int, q: int|
                0 <= p < j && 0 <= q < edges[p].targets.len() && #[trigger] edges[p].targets[q] == x;
            if p == j - 1 {
                assert(edges[j - 1].targets.contains(x));
            }
        }
    }
}

proof fn lemma_edge_actions_pre_contains(edges: Seq<EdgeV>, j: int, x: Seq<u8>)
    requires
        j <= edges.len(),
    ensures
        edge_actions_pre(edges, j).contains(x) <==> exists|p: int, q: int|
            0 <= p < j && 0 <= q < edges[p].actions.len() && #[trigger] edges[p].actions[q] == x,
    decreases j,
{
    if j > 0 {
        lemma_edge_actions_pre_contains(edges, j - 1, x);
        lemma_contains_add(edge_actions_pre(edges, j - 1), edges[j - 1].actions, x);
        if edges[j - 1].actions.contains(x) {
            let q = choose|q: int| 0 <= q < edges[j - 1].actions.len() && #[trigger] edges[j - 1].actions[q] == x;
            assert(edges[j - 1].actions[q] == x);
        }
        if exists|p: int, q: int|
            0 <= p < j && 0 <= q < edges[p].actions.len() && #[trigger] edges[p].actions[q] == x {
            let (p, q) = choose|p: int, q: int|
                0 <= p < j && 0 <= q < edges[p].actions.len() && #[trigger] edges[p].actions[q] == x;
            if p == j - 1 {
                assert(edges[j - 1].actions.contains(x));
            }
        }
    }
}

proof fn lemma_state_occ_pre_contains(blocks: Seq<BlockV>, i: int, x: Seq<u8>)
    requires
        i <= blocks.len(),
    ensures
        state_occ_pre(blocks, i).contains(x) <==> {
            ||| exists|p: int| 0 <= p < i && #[trigger] blocks[p].state == x
            ||| exists|p: int, q: int, r: int|
                0 <= p < i && 0 <= q < blocks[p].edges.len()
                && 0 <= r < blocks[p].edges[q].targets.len()
                && #[trigger] blocks[p].edges[q].targets[r] == x
        },
    decreases i,
{
    if i > 0 {
        let b = blocks[i - 1];
        lemma_state_occ_pre_contains(blocks, i - 1, x);
        lemma_contains_add(state_occ_pre(blocks, i - 1), block_state_occ(b), x);
        lemma_contains_add(seq![b.state], edge_targets_pre(b.edges, b.edges.len() as int), x);
        lemma_edge_targets_pre_contains(b.edges, b.edges.len() as int, x);
        assert(seq![b.state].contains(x) <==> b.state == x) by {
            if b.state == x {
                assert(seq![b.state][0] == x);
            }
        }
        if block_state_occ(b).contains(x) {
            if b.state == x {
                assert(blocks[i - 1].state == x);
            } else {
                let (q, r) = choose|q: int, r: int|
                    0 <= q < b.edges.len() && 0 <= r < b.edges[q].targets.len()
                    && #[trigger] b.edges[q].targets[r] == x;
                assert(blocks[i - 1].edges[q].targets[r] == x);
            }
        }
        if exists|p: int| 0 <= p < i && #[trigger] blocks[p].state == x {
            let p = choose|p: int| 0 <= p < i && #[trigger] blocks[p].state == x;
            if p == i - 1 {
                assert(block_state_occ(b).contains(x));
            }
        }
        if exists|p: int, q: int, r: int|
            0 <= p < i && 0 <= q < blocks[p].edges.len()
            && 0 <= r < blocks[p].edges[q].targets.len()
            && #[trigger] blocks[p].edges[q].targets[r] == x {
            let (p, q, r) = choose|p: int, q: int, r: int|
                0 <= p < i && 0 <= q < blocks[p].edges.len()
                && 0 <= r < blocks[p].edges[q].targets.len()
                && #[trigger] blocks[p].edges[q].targets[r] == x;
            if p == i - 1 {
                assert(b.edges[q].targets[r] == x);
                assert(block_state_occ(b).contains(x));
            }
        }
    }
}

proof fn lemma_action_occ_pre_contains(blocks: Seq<BlockV>, i: int, x: Seq<u8>)
    requires
        i <= blocks.len(),
    ensures
        action_occ_pre(blocks, i).contains(x) <==> exists|p: int, q: int, r: int|
            0 <= p < i && 0 <= q < blocks[p].edges.len()
            && 0 <= r < blocks[p].edges[q].actions.len()
            && #[trigger] blocks[p].edges[q].actions[r] == x,
    decreases i,
{
    if i > 0 {
        let b = blocks[i - 1];
        lemma_action_occ_pre_contains(blocks, i - 1, x);
        lemma_contains_add(action_occ_pre(blocks, i - 1), block_action_occ(b), x);
        lemma_edge_actions_pre_contains(b.edges, b.edges.len() as int, x);
        if block_action_occ(b).contains(x) {
            let (q, r) = choose|q: int, r: int|
                0 <= q < b.edges.len() && 0 <= r < b.edges[q].actions.len()
                && #[trigger] b.edges[q].actions[r] == x;
            assert(blocks[i - 1].edges[q].actions[r] == x);
        }
        if exists|p: int, q: int, r: int|
            0 <= p < i && 0 <= q < blocks[p].edges.len()
            && 0 <= r < blocks[p].edges[q].actions.len()
            && #[trigger] blocks[p].edges[q].actions[r] == x {
            let (p, q, r) = choose|p: int, q: int, r: int|
                0 <= p < i && 0 <= q < blocks[p].edges.len()
                && 0 <= r < blocks[p].edges[q].actions.len()
                && #[trigger] blocks[p].edges[q].actions[r] == x;
            if p == i - 1 {
                assert(b.edges[q].actions[r] == x);
                assert(block_action_occ(b).contains(x));
            }
        }
    }
}

/// The state occurrences are exactly the identifiers that appear as a
/// block's own state or as an edge target.
pub proof fn lemma_state_occ_characterizes(sp: SpecV, id: Seq<u8>)
    ensures
        state_occurrences(sp).contains(id) <==> is_state_id_of(sp, id),
{
    lemma_state_occ_pre_contains(sp.blocks, sp.blocks.len() as int, id);
}

/// The action occurrences are exactly the identifiers that appear in some
/// edge's action alternatives.
pub proof fn lemma_action_occ_characterizes(sp: SpecV, id: Seq<u8>)
    ensures
        action_occurrences(sp).contains(id) <==> is_action_id_of(sp, id),
{
    lemma_action_occ_pre_contains(sp.blocks, sp.blocks.len() as int, id);
}

} // verus!
