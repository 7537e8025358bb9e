//! The compiled dispatch structure: the closed state and action variant
//! sets, in first-occurrence order, and one row per declared
//! (source state, action) pair carrying the allowed-target set.

use vstd::prelude::*;
use crate::ast::{
    BlockV, EdgeV, SpecV, Specification, action_occ_pre, action_occurrences, block_action_occ,
    edge_actions_pre, edge_targets_pre, find_block, is_action_id_of, is_state_id_of,
    lemma_action_occ_characterizes, lemma_state_occ_characterizes, state_occ_pre,
    state_occurrences,
};
use crate::idents::{contains_id, copy_id, copy_ids, seq_views};

verus! {

broadcast use crate::idents::lemma_seq_views_push, crate::idents::lemma_seq_views_add;

/// One dispatch row: in state `src`, action `action` is declared, and the
/// handler may produce any state in `targets`.
#[derive(Debug)]
pub struct TableEdge {
    pub src: Vec<u8>,
    pub action: Vec<u8>,
    pub targets: Vec<Vec<u8>>,
}

/// Mathematical view of a `TableEdge`.
pub struct RowV {
    pub src: Seq<u8>,
    pub action: Seq<u8>,
    pub targets: Seq<Seq<u8>>,
}

impl View for TableEdge {
    type V = RowV;

    open spec fn view(&self) -> RowV {
        RowV {
            src: self.src@,
            action: self.action@,
            targets: seq_views(self.targets@),
        }
    }
}

/// The emitted dispatch artifact.
#[derive(Debug)]
pub struct DispatchTable {
    pub states: Vec<Vec<u8>>,
    pub actions: Vec<Vec<u8>>,
    pub edges: Vec<TableEdge>,
}

/// Mathematical view of a `DispatchTable`.
pub struct TableV {
    pub states: Seq<Seq<u8>>,
    pub actions: Seq<Seq<u8>>,
    pub edges: Seq<RowV>,
}

impl View for DispatchTable {
    type V = TableV;

    open spec fn view(&self) -> TableV {
        TableV {
            states: seq_views(self.states@),
            actions: seq_views(self.actions@),
            edges: seq_views(self.edges@),
        }
    }
}

/// The first `k` identifiers with later repetitions removed.
pub open spec fn dedup_pre(s: Seq<Seq<u8>>, k: int) -> Seq<Seq<u8>>
    decreases k,
{
    if k <= 0 {
        seq![]
    } else {
        let p = dedup_pre(s, k - 1);
        if p.contains(s[k - 1]) {
            p
        } else {
            p.push(s[k - 1])
        }
    }
}

/// The identifiers of `s` in first-occurrence order, each once.
pub open spec fn dedup_first(s: Seq<Seq<u8>>) -> Seq<Seq<u8>> {
    dedup_pre(s, s.len() as int)
}

pub proof fn lemma_dedup_pre_contains(s: Seq<Seq<u8>>, k: int, x: Seq<u8>)
    ensures
        dedup_pre(s, k).contains(x) <==> exists|i: int| 0 <= i < k && s[i] == x,
    decreases k,
{
    if k > 0 {
        lemma_dedup_pre_contains(s, k - 1, x);
        let p = dedup_pre(s, k - 1);
        if !p.contains(s[k - 1]) {
            if p.push(s[k - 1]).contains(x) {
                let i = choose|i: int| 0 <= i < p.len() + 1 && #[trigger] p.push(s[k - 1])[i] == x;
                if i < p.len() {
                    assert(p[i] == x);
                }
            }
            if p.contains(x) {
                let i = choose|i: int| 0 <= i < p.len() && #[trigger] p[i] == x;
                assert(p.push(s[k - 1])[i] == x);
            }
            if x == s[k - 1] {
                assert(p.push(s[k - 1])[p.len() as int] == x);
            }
        }
        if exists|i: int| 0 <= i < k && #[trigger] s[i] == x {
            let i = choose|i: int| 0 <= i < k && #[trigger] s[i] == x;
            if i < k - 1 {
                assert(exists|i: int| 0 <= i < k - 1 && #[trigger] s[i] == x);
            }
        }
    }
}

pub proof fn lemma_dedup_pre_no_dup(s: Seq<Seq<u8>>, k: int)
    ensures
        dedup_pre(s, k).no_duplicates(),
    decreases k,
{
    if k > 0 {
        lemma_dedup_pre_no_dup(s, k - 1);
        let p = dedup_pre(s, k - 1);
        if !p.contains(s[k - 1]) {
            let q = p.push(s[k - 1]);
            assert forall|i: int, j: int| 0 <= i < q.len() && 0 <= j < q.len() && i != j
                implies q[i] != q[j] by {
                if i < p.len() && j < p.len() {
                    assert(p[i] != p[j]);
                } else if j == p.len() {
                    assert(q[i] == p[i]);
                    if q[i] == s[k - 1] {
                        assert(p.contains(s[k - 1]));
                    }
                } else {
                    assert(q[j] == p[j]);
                    if q[j] == s[k - 1] {
                        assert(p.contains(s[k - 1]));
                    }
                }
            }
        }
    }
}

/// `dedup_pre` reads only the first `k` elements.
pub proof fn lemma_dedup_pre_stable(s: Seq<Seq<u8>>, t: Seq<Seq<u8>>, k: int)
    requires
        k <= s.len(),
        k <= t.len(),
        forall|i: int| 0 <= i < k ==> s[i] == t[i],
    ensures
        dedup_pre(s, k) == dedup_pre(t, k),
    decreases k,
{
    if k > 0 {
        lemma_dedup_pre_stable(s, t, k - 1);
    }
}

/// How one more occurrence changes the deduplicated list.
pub proof fn lemma_dedup_push(s: Seq<Seq<u8>>, x: Seq<u8>)
    ensures
        dedup_first(s.push(x)) == (if dedup_first(s).contains(x) {
            dedup_first(s)
        } else {
            dedup_first(s).push(x)
        }),
{
    lemma_dedup_pre_stable(s, s.push(x), s.len() as int);
    assert(dedup_first(s.push(x)) == dedup_pre(s.push(x), s.len() as int + 1));
    assert(s.push(x)[s.len() as int] == x);
}

/// Inserts `x` unless an equal identifier is already present.
fn insert_unique(v: &mut Vec<Vec<u8>>, x: &Vec<u8>)
    ensures
        seq_views(final(v)@) == (if seq_views(old(v)@).contains(x@) {
            seq_views(old(v)@)
        } else {
            seq_views(old(v)@).push(x@)
        }),
{
    if !contains_id(v, x) {
        v.push(copy_id(x));
    }
}

/// The state-variant list: every mentioned state identifier, once, in
/// first-occurrence order.
pub fn state_variants(sp: &Specification) -> (v: Vec<Vec<u8>>)
    ensures
        seq_views(v@) == dedup_first(state_occurrences(sp@)),
{
    let mut v: Vec<Vec<u8>> = Vec::new();
    let mut i: usize = 0;
    while i < sp.blocks.len()
        invariant
            i <= sp.blocks.len(),
            seq_views(v@) == dedup_first(state_occ_pre(sp@.blocks, i as int)),
        decreases sp.blocks.len() - i,
    {
        let ghost occ0 = state_occ_pre(sp@.blocks, i as int);
        let b = &sp.blocks[i];
        proof {
            lemma_dedup_push(occ0, b@.state);
            assert(occ0.push(b@.state) =~= occ0 + seq![b@.state]);
        }
        insert_unique(&mut v, &b.state);
        let ghost occ1 = occ0 + seq![b@.state];
        let mut j: usize = 0;
        while j < b.edges.len()
            invariant
                j <= b.edges.len(),
                seq_views(v@) == dedup_first(occ1 + edge_targets_pre(b@.edges, j as int)),
            decreases b.edges.len() - j,
        {
            let ghost occ2 = occ1 + edge_targets_pre(b@.edges, j as int);
            let e = &b.edges[j];
            let mut k: usize = 0;
            while k < e.targets.len()
                invariant
                    k <= e.targets.len(),
                    seq_views(v@) == dedup_first(occ2 + e@.targets.take(k as int)),
                decreases e.targets.len() - k,
            {
                let ghost occ3 = occ2 + e@.targets.take(k as int);
                proof {
                    lemma_dedup_push(occ3, e@.targets[k as int]);
                    assert(occ3.push(e@.targets[k as int]) =~= occ2 + e@.targets.take(
                        k as int + 1));
                    assert(e@.targets[k as int] == e.targets[k as int]@);
                }
                insert_unique(&mut v, &e.targets[k]);
                k = k + 1;
            }
            proof {
                assert(occ2 + e@.targets.take(e@.targets.len() as int) =~= occ1
                    + edge_targets_pre(b@.edges, j as int + 1)) by {
                    assert(b@.edges[j as int] == e@);
                    assert(e@.targets.take(e@.targets.len() as int) =~= e@.targets);
                }
            }
            j = j + 1;
        }
        proof {
            assert(occ1 + edge_targets_pre(b@.edges, b@.edges.len() as int) =~= state_occ_pre(
                sp@.blocks, i as int + 1)) by {
                assert(sp@.blocks[i as int] == b@);
            }
        }
        i = i + 1;
    }
    proof {
        assert(state_occ_pre(sp@.blocks, sp@.blocks.len() as int) == state_occurrences(sp@));
        assert(sp@.blocks.len() == sp.blocks@.len());
    }
    v
}

/// The action-variant list: every mentioned action identifier, once, in
/// first-occurrence order.
pub fn action_variants(sp: &Specification) -> (v: Vec<Vec<u8>>)
    ensures
        seq_views(v@) == dedup_first(action_occurrences(sp@)),
{
    let mut v: Vec<Vec<u8>> = Vec::new();
    let mut i: usize = 0;
    while i < sp.blocks.len()
        invariant
            i <= sp.blocks.len(),
            seq_views(v@) == dedup_first(action_occ_pre(sp@.blocks, i as int)),
        decreases sp.blocks.len() - i,
    {
        let ghost occ1 = action_occ_pre(sp@.blocks, i as int);
        let b = &sp.blocks[i];
        let mut j: usize = 0;
        while j < b.edges.len()
            invariant
                j <= b.edges.len(),
                seq_views(v@) == dedup_first(occ1 + edge_actions_pre(b@.edges, j as int)),
            decreases b.edges.len() - j,
        {
            let ghost occ2 = occ1 + edge_actions_pre(b@.edges, j as int);
            let e = &b.edges[j];
            let mut k: usize = 0;
            while k < e.actions.len()
                invariant
                    k <= e.actions.len(),
                    seq_views(v@) == dedup_first(occ2 + e@.actions.take(k as int)),
                decreases e.actions.len() - k,
            {
                let ghost occ3 = occ2 + e@.actions.take(k as int);
                proof {
                    lemma_dedup_push(occ3, e@.actions[k as int]);
                    assert(occ3.push(e@.actions[k as int]) =~= occ2 + e@.actions.take(
                        k as int + 1));
                    assert(e@.actions[k as int] == e.actions[k as int]@);
                }
                insert_unique(&mut v, &e.actions[k]);
                k = k + 1;
            }
            proof {
                assert(occ2 + e@.actions.take(e@.actions.len() as int) =~= occ1
                    + edge_actions_pre(b@.edges, j as int + 1)) by {
                    assert(b@.edges[j as int] == e@);
                    assert(e@.actions.take(e@.actions.len() as int) =~= e@.actions);
                }
            }
            j = j + 1;
        }
        proof {
            assert(occ1 + edge_actions_pre(b@.edges, b@.edges.len() as int) =~= action_occ_pre(
                sp@.blocks, i as int + 1)) by {
                assert(sp@.blocks[i as int] == b@);
                assert(block_action_occ(sp@.blocks[i as int]) == edge_actions_pre(
                    b@.edges, b@.edges.len() as int));
            }
        }
        i = i + 1;
    }
    proof {
        assert(action_occ_pre(sp@.blocks, sp@.blocks.len() as int) == action_occurrences(sp@));
    }
    v
}

/// The rows one edge contributes: one per declared action alternative.
pub open spec fn edge_rows(src: Seq<u8>, e: EdgeV) -> Seq<RowV> {
    Seq::new(e.actions.len(), |k: int| RowV { src: src, action: e.actions[k], targets: e.targets })
}

/// The rows of the first `j` edges of one block.
pub open spec fn block_rows_pre(b: BlockV, j: int) -> Seq<RowV>
    decreases j,
{
    if j <= 0 {
        seq![]
    } else {
        block_rows_pre(b, j - 1) + edge_rows(b.state, b.edges[j - 1])
    }
}

pub open spec fn block_rows(b: BlockV) -> Seq<RowV> {
    block_rows_pre(b, b.edges.len() as int)
}

/// Whether an earlier block already declared this block's state: a later
/// block for the same state is shadowed and contributes no rows.
pub open spec fn seen_before(blocks: Seq<BlockV>, i: int) -> bool {
    find_block(blocks, i, blocks[i].state) is Some
}

/// The rows of the first `i` blocks, shadowed blocks skipped.
pub open spec fn rows_pre(blocks: Seq<BlockV>, i: int) -> Seq<RowV>
    decreases i,
{
    if i <= 0 {
        seq![]
    } else {
        rows_pre(blocks, i - 1) + (if seen_before(blocks, i - 1) {
            seq![]
        } else {
            block_rows(blocks[i - 1])
        })
    }
}

pub open spec fn table_rows(sp: SpecV) -> Seq<RowV> {
    rows_pre(sp.blocks, sp.blocks.len() as int)
}

/// The dispatch table a specification compiles to.
pub open spec fn table_of(sp: SpecV) -> TableV {
    TableV {
        states: dedup_first(state_occurrences(sp)),
        actions: dedup_first(action_occurrences(sp)),
        edges: table_rows(sp),
    }
}

/// The generated state-variant set is the union of every state identifier
/// appearing as a block id or an edge target, with no duplicates.
pub proof fn lemma_state_variant_set(sp: SpecV, id: Seq<u8>)
    ensures
        table_of(sp).states.contains(id) <==> is_state_id_of(sp, id),
        table_of(sp).states.no_duplicates(),
{
    let occ = state_occurrences(sp);
    lemma_dedup_pre_contains(occ, occ.len() as int, id);
    lemma_dedup_pre_no_dup(occ, occ.len() as int);
    lemma_state_occ_characterizes(sp, id);
}

/// The generated action-variant set is the union of every action identifier
/// appearing in any edge, with no duplicates.
pub proof fn lemma_action_variant_set(sp: SpecV, id: Seq<u8>)
    ensures
        table_of(sp).actions.contains(id) <==> is_action_id_of(sp, id),
        table_of(sp).actions.no_duplicates(),
{
    let occ = action_occurrences(sp);
    lemma_dedup_pre_contains(occ, occ.len() as int, id);
    lemma_dedup_pre_no_dup(occ, occ.len() as int);
    lemma_action_occ_characterizes(sp, id);
}

/// Builds the dispatch table of a specification: the two variant lists and
/// one row per declared (state, action) pair, first declaration winning.
pub fn build_table(sp: &Specification) -> (t: DispatchTable)
    ensures
        t@ == table_of(sp@),
{
    let states = state_variants(sp);
    let actions = action_variants(sp);
    let mut rows: Vec<TableEdge> = Vec::new();
    let mut seen: Vec<Vec<u8>> = Vec::new();
    let mut i: usize = 0;
    while i < sp.blocks.len()
        invariant
            i <= sp.blocks.len(),
            seq_views(rows@) == rows_pre(sp@.blocks, i as int),
            forall|id: Seq<u8>| #[trigger] seq_views(seen@).contains(id) <==> find_block(
                sp@.blocks, i as int, id) is Some,
        decreases sp.blocks.len() - i,
    {
        let ghost rows0 = rows_pre(sp@.blocks, i as int);
        let b = &sp.blocks[i];
        let already = contains_id(&seen, &b.state);
        proof {
            assert(sp@.blocks[i as int] == b@);
            assert(already == seen_before(sp@.blocks, i as int));
        }
        if !already {
            let mut j: usize = 0;
            while j < b.edges.len()
                invariant
                    j <= b.edges.len(),
                    seq_views(rows@) == rows0 + block_rows_pre(b@, j as int),
                decreases b.edges.len() - j,
            {
                let ghost rows1 = rows0 + block_rows_pre(b@, j as int);
                let e = &b.edges[j];
                let mut k: usize = 0;
                while k < e.actions.len()
                    invariant
                        k <= e.actions.len(),
                        seq_views(rows@) == rows1 + edge_rows(b@.state, e@).take(k as int),
                    decreases e.actions.len() - k,
                {
                    let row = TableEdge {
                        src: copy_id(&b.state),
                        action: copy_id(&e.actions[k]),
                        targets: copy_ids(&e.targets),
                    };
                    proof {
                        assert(row@ == edge_rows(b@.state, e@)[k as int]);
                        assert((rows1 + edge_rows(b@.state, e@).take(k as int)).push(row@)
                            =~= rows1 + edge_rows(b@.state, e@).take(k as int + 1));
                    }
                    rows.push(row);
                    k = k + 1;
                }
                proof {
                    assert(rows1 + edge_rows(b@.state, e@).take(e@.actions.len() as int)
                        =~= rows0 + block_rows_pre(b@, j as int + 1)) by {
                        assert(b@.edges[j as int] == e@);
                        assert(edge_rows(b@.state, e@).take(e@.actions.len() as int)
                            =~= edge_rows(b@.state, e@));
                    }
                }
                j = j + 1;
            }
            proof {
                assert(rows0 + block_rows_pre(b@, b@.edges.len() as int) =~= rows_pre(
                    sp@.blocks, i as int + 1)) by {
                    assert(sp@.blocks[i as int] == b@);
                    assert(!seen_before(sp@.blocks, i as int));
                }
            }
        } else {
            proof {
                assert(rows0 + seq![] =~= rows0);
                assert(rows_pre(sp@.blocks, i as int + 1) == rows0);
            }
        }
        let ghost seen0 = seq_views(seen@);
        insert_unique(&mut seen, &b.state);
        proof {
            assert forall|id: Seq<u8>| #[trigger] seq_views(seen@).contains(id) <==> (find_block(
                sp@.blocks, i as int + 1, id) is Some) by {
                crate::idents::lemma_contains_push(seen0, b@.state, id);
                assert(find_block(sp@.blocks, i as int + 1, id) == (
                    if find_block(sp@.blocks, i as int, id) is Some {
                        find_block(sp@.blocks, i as int, id)
                    } else if sp@.blocks[i as int].state == id {
                        Some(i as int)
                    } else {
                        None
                    }
                ));
            }
        }
        i = i + 1;
    }
    proof {
        assert(rows_pre(sp@.blocks, sp@.blocks.len() as int) == table_rows(sp@));
    }
    DispatchTable { states, actions, edges: rows }
}

} // verus!
