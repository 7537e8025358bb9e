//! The transition routine over a compiled dispatch table.
//!
//! A machine value is a variant tag plus a host payload.  `advance` routes
//! an action to the host's transition capability and then checks that the
//! returned variant belongs to the declared allowed-target set of the edge
//! that dispatched it.

use vstd::prelude::*;
use crate::ast::{BlockV, EdgeV, SpecV};
use crate::idents::{contains_id, copy_id, copy_ids, ids_eq, seq_views};
use crate::table::{DispatchTable, RowV, TableEdge, TableV};
use crate::{Action, State};

verus! {

/// A machine state value: the state-variant tag and its payload.
#[derive(Debug)]
pub struct StateValue<P> {
    pub kind: Vec<u8>,
    pub payload: P,
}

/// An action value: the action-variant tag and its payload.
#[derive(Debug)]
pub struct ActionValue<Q> {
    pub kind: Vec<u8>,
    pub payload: Q,
}

impl<Q> Action for ActionValue<Q> {}

impl<P> StateValue<P> {
    /// Conversion helper: wrap a payload into the state variant named `kind`.
    pub fn new(kind: Vec<u8>, payload: P) -> (s: Self)
        ensures
            s.kind == kind,
            s.payload == payload,
    {
        StateValue { kind, payload }
    }
}

impl<Q> ActionValue<Q> {
    /// Conversion helper: wrap a payload into the action variant named `kind`.
    pub fn new(kind: Vec<u8>, payload: Q) -> (a: Self)
        ensures
            a.kind == kind,
            a.payload == payload,
    {
        ActionValue { kind, payload }
    }
}

/// The least row index below `k` whose row dispatches `(s, a)`.
pub open spec fn find_row(rows: Seq<RowV>, k: int, s: Seq<u8>, a: Seq<u8>) -> Option<int>
    decreases k,
{
    if k <= 0 {
        None
    } else if find_row(rows, k - 1, s, a) is Some {
        find_row(rows, k - 1, s, a)
    } else if rows[k - 1].src == s && rows[k - 1].action == a {
        Some(k - 1)
    } else {
        None
    }
}

/// The dispatch row a table selects for state tag `s` and action tag `a`.
pub open spec fn edge_lookup(t: TableV, s: Seq<u8>, a: Seq<u8>) -> Option<int> {
    find_row(t.edges, t.edges.len() as int, s, a)
}

pub proof fn lemma_find_row_props(rows: Seq<RowV>, k: int, s: Seq<u8>, a: Seq<u8>)
    requires
        k <= rows.len(),
    ensures
        match find_row(rows, k, s, a) {
            Some(i) => 0 <= i < k && rows[i].src == s && rows[i].action == a,
            None => forall|i: int|
                0 <= i < k ==> !((#[trigger] rows[i]).src == s && rows[i].action == a),
        },
    decreases k,
{
    if k > 0 {
        lemma_find_row_props(rows, k - 1, s, a);
    }
}

pub proof fn lemma_find_row_mono(rows: Seq<RowV>, k1: int, k2: int, s: Seq<u8>, a: Seq<u8>)
    requires
        k1 <= k2,
        find_row(rows, k1, s, a) is Some,
    ensures
        find_row(rows, k2, s, a) == find_row(rows, k1, s, a),
    decreases k2,
{
    if k2 > k1 {
        lemma_find_row_mono(rows, k1, k2 - 1, s, a);
    }
}

/// Finds the dispatch row for `(s, a)`, if one is declared.
fn find_edge(rows: &Vec<TableEdge>, s: &Vec<u8>, a: &Vec<u8>) -> (r: Option<usize>)
    ensures
        match r {
            Some(i) => i < rows.len() && find_row(
                seq_views(rows@), rows@.len() as int, s@, a@) == Some(i as int),
            None => find_row(seq_views(rows@), rows@.len() as int, s@, a@) is None,
        },
{
    let ghost rv = seq_views(rows@);
    let mut i: usize = 0;
    while i < rows.len()
        invariant
            i <= rows.len(),
            rv == seq_views(rows@),
            find_row(rv, i as int, s@, a@) is None,
        decreases rows.len() - i,
    {
        let hit = ids_eq(&rows[i].src, s) && ids_eq(&rows[i].action, a);
        proof {
            assert(rv[i as int] == rows@[i as int]@);
        }
        if hit {
            proof {
                assert(find_row(rv, i as int + 1, s@, a@) == Some(i as int));
                lemma_find_row_mono(rv, i as int + 1, rv.len() as int, s@, a@);
            }
            return Some(i);
        }
        proof {
            assert(find_row(rv, i as int + 1, s@, a@) is None);
        }
        i = i + 1;
    }
    None
}

/// Diagnostic context of a fatal contract violation: the source state name,
/// the action name, the variant the handler actually returned, and the full
/// list of allowed variants.
#[derive(Debug)]
pub struct ViolationInfo {
    pub state: Vec<u8>,
    pub action: Vec<u8>,
    pub returned: Vec<u8>,
    pub allowed: Vec<Vec<u8>>,
}

/// Why `advance` did not produce a new state.
#[derive(Debug)]
pub enum AdvanceError<P, Q> {
    /// The action is not declared for the current state (or the state has no
    /// declared edges at all): the inputs come back unchanged.
    Rejected(StateValue<P>, ActionValue<Q>),
    /// The handler produced a state variant outside the declared
    /// allowed-target set: fatal, never coerced into a rejection.
    ContractViolation(ViolationInfo),
}

/// The embedded post-condition check.  A handler result whose variant is in
/// the declared allowed-target set is passed through untouched, and never
/// reports a violation; a result with any other variant always does.
pub fn check_handler_result<P>(
    state_name: &Vec<u8>,
    action_name: &Vec<u8>,
    allowed: &Vec<Vec<u8>>,
    returned: StateValue<P>,
) -> (r: Result<StateValue<P>, ViolationInfo>)
    ensures
        seq_views(allowed@).contains(returned.kind@) ==> r == Ok::<
            StateValue<P>, ViolationInfo>(returned),
        !seq_views(allowed@).contains(returned.kind@) ==> match r {
            Result::Ok(_) => false,
            Result::Err(v) => v.state@ == state_name@ && v.action@ == action_name@
                && v.returned@ == returned.kind@ && seq_views(v.allowed@) == seq_views(allowed@),
        },
{
    if contains_id(allowed, &returned.kind) {
        Ok(returned)
    } else {
        let StateValue { kind, payload: _ } = returned;
        Err(ViolationInfo {
            state: copy_id(state_name),
            action: copy_id(action_name),
            returned: kind,
            allowed: copy_ids(allowed),
        })
    }
}

/// The three possible outcomes of one dispatch.
pub enum Outcome {
    Advanced,
    Rejected,
    Violated,
}

/// The outcome of one dispatch, as a function of the table, the two input
/// variant tags, and the variant tag the handler returned.
pub open spec fn advance_outcome(t: TableV, sk: Seq<u8>, ak: Seq<u8>, rk: Seq<u8>) -> Outcome {
    match edge_lookup(t, sk, ak) {
        None => Outcome::Rejected,
        Some(i) => if t.edges[i].targets.contains(rk) {
            Outcome::Advanced
        } else {
            Outcome::Violated
        },
    }
}

/// Dispatch is deterministic: identical table, state tag, action tag and
/// handler-returned tag always give the identical outcome.
pub proof fn lemma_advance_deterministic(
    t1: TableV, t2: TableV,
    sk1: Seq<u8>, sk2: Seq<u8>,
    ak1: Seq<u8>, ak2: Seq<u8>,
    rk1: Seq<u8>, rk2: Seq<u8>,
)
    requires
        t1 == t2,
        sk1 == sk2,
        ak1 == ak2,
        rk1 == rk2,
    ensures
        advance_outcome(t1, sk1, ak1, rk1) == advance_outcome(t2, sk2, ak2, rk2),
{
}

proof fn lemma_find_row_stable(x: Seq<RowV>, y: Seq<RowV>, k: int, s: Seq<u8>, a: Seq<u8>)
    requires
        k <= x.len(),
        k <= y.len(),
        forall|i: int| 0 <= i < k ==> x[i] == y[i],
    ensures
        find_row(x, k, s, a) == find_row(y, k, s, a),
    decreases k,
{
    if k > 0 {
        lemma_find_row_stable(x, y, k - 1, s, a);
    }
}

/// Looking a pair up in a concatenation: the first part decides if it can.
proof fn lemma_find_row_cat(r1: Seq<RowV>, r2: Seq<RowV>, k2: int, s: Seq<u8>, a: Seq<u8>)
    requires
        0 <= k2 <= r2.len(),
    ensures
        find_row(r1 + r2, r1.len() as int + k2, s, a) == match find_row(
            r1, r1.len() as int, s, a) {
            Some(i) => Some(i),
            None => match find_row(r2, k2, s, a) {
                Some(j) => Some(r1.len() as int + j),
                None => None::<int>,
            },
        },
    decreases k2,
{
    if k2 == 0 {
        lemma_find_row_stable(r1 + r2, r1, r1.len() as int, s, a);
    } else {
        lemma_find_row_cat(r1, r2, k2 - 1, s, a);
        assert((r1 + r2)[r1.len() as int + k2 - 1] == r2[k2 - 1]);
    }
}

/// Lookup among the rows of one edge: it hits exactly when the source
/// matches and one of the first `k` action alternatives is `a`.
proof fn lemma_edge_rows_lookup(src: Seq<u8>, e: EdgeV, k: int, s: Seq<u8>, a: Seq<u8>)
    requires
        0 <= k <= e.actions.len(),
    ensures
        (find_row(crate::table::edge_rows(src, e), k, s, a) is Some) <==> (s == src
            && exists|q: int| 0 <= q < k && e.actions[q] == a),
    decreases k,
{
    let rows = crate::table::edge_rows(src, e);
    if k > 0 {
        lemma_edge_rows_lookup(src, e, k - 1, s, a);
        assert(rows[k - 1] == RowV { src: src, action: e.actions[k - 1], targets: e.targets });
        if find_row(rows, k, s, a) is Some {
            if find_row(rows, k - 1, s, a) is None {
                assert(rows[k - 1].src == s && rows[k - 1].action == a);
                assert(e.actions[k - 1] == a);
            }
        }
        if s == src && exists|q: int| 0 <= q < k && e.actions[q] == a {
            let q = choose|q: int| 0 <= q < k && #[trigger] e.actions[q] == a;
            if q < k - 1 {
                assert(exists|q2: int| 0 <= q2 < k - 1 && e.actions[q2] == a);
            }
        }
    }
}

/// What looking a pair up among one block's rows yields: nothing unless the
/// source is the block's state; otherwise the first edge declaring `a`.
proof fn lemma_block_rows_lookup(b: BlockV, j: int, s: Seq<u8>, a: Seq<u8>)
    requires
        0 <= j <= b.edges.len(),
    ensures
        ({
            let rows = crate::table::block_rows_pre(b, j);
            let got = match find_row(rows, rows.len() as int, s, a) {
                None => None,
                Some(x) => Some(rows[x].targets),
            };
            got == (if s == b.state {
                match crate::ast::find_edge_in(b.edges, j, a) {
                    None => None,
                    Some(ej) => Some(b.edges[ej].targets),
                }
            } else {
                None::<Seq<Seq<u8>>>
            })
        }),
    decreases j,
{
    if j > 0 {
        lemma_block_rows_lookup(b, j - 1, s, a);
        let r1 = crate::table::block_rows_pre(b, j - 1);
        let e = b.edges[j - 1];
        let r2 = crate::table::edge_rows(b.state, e);
        let rows = crate::table::block_rows_pre(b, j);
        assert(rows == r1 + r2);
        assert(rows.len() == r1.len() + r2.len());
        lemma_find_row_cat(r1, r2, r2.len() as int, s, a);
        lemma_edge_rows_lookup(b.state, e, e.actions.len() as int, s, a);
        lemma_find_row_props(r2, r2.len() as int, s, a);
        match find_row(r1, r1.len() as int, s, a) {
            Some(x) => {
                lemma_find_row_props(r1, r1.len() as int, s, a);
                assert(rows[x] == r1[x]);
            },
            None => {
                match find_row(r2, r2.len() as int, s, a) {
                    Some(y) => {
                        assert(rows[r1.len() as int + y] == r2[y]);
                        assert(r2[y].targets == e.targets);
                        assert(s == b.state && e.actions.contains(a));
                        assert(crate::ast::find_edge_in(b.edges, j, a) == Some(j - 1));
                    },
                    None => {
                        if s == b.state && e.actions.contains(a) {
                            let q = choose|q: int|
                                0 <= q < e.actions.len() && #[trigger] e.actions[q] == a;
                            assert(find_row(r2, r2.len() as int, s, a) is Some);
                        }
                    },
                }
            },
        }
    }
}

proof fn lemma_find_block_props(blocks: Seq<BlockV>, k: int, id: Seq<u8>)
    ensures
        match crate::ast::find_block(blocks, k, id) {
            Some(bi) => 0 <= bi < k && blocks[bi].state == id,
            None => forall|p: int| 0 <= p < k ==> (#[trigger] blocks[p]).state != id,
        },
    decreases k,
{
    if k > 0 {
        lemma_find_block_props(blocks, k - 1, id);
    }
}

/// What looking a pair up among the rows of the first `i` blocks yields:
/// exactly what the first block for `s`, and within it the first edge for
/// `a`, declares.
proof fn lemma_rows_pre_lookup(blocks: Seq<BlockV>, i: int, s: Seq<u8>, a: Seq<u8>)
    requires
        0 <= i <= blocks.len(),
    ensures
        ({
            let rows = crate::table::rows_pre(blocks, i);
            let got = match find_row(rows, rows.len() as int, s, a) {
                None => None,
                Some(x) => Some(rows[x].targets),
            };
            got == (match crate::ast::find_block(blocks, i, s) {
                None => None,
                Some(bi) => match crate::ast::find_edge_in(
                    blocks[bi].edges, blocks[bi].edges.len() as int, a) {
                    None => None,
                    Some(ej) => Some(blocks[bi].edges[ej].targets),
                },
            })
        }),
    decreases i,
{
    if i > 0 {
        lemma_rows_pre_lookup(blocks, i - 1, s, a);
        let b = blocks[i - 1];
        let r1 = crate::table::rows_pre(blocks, i - 1);
        let rows = crate::table::rows_pre(blocks, i);
        if crate::table::seen_before(blocks, i - 1) {
            assert(rows =~= r1);
            lemma_find_row_stable(rows, r1, r1.len() as int, s, a);
            if s == b.state {
                assert(crate::ast::find_block(blocks, i - 1, s) is Some);
            }
        } else {
            let r2 = crate::table::block_rows(b);
            assert(rows == r1 + r2);
            assert(r2 == crate::table::block_rows_pre(b, b.edges.len() as int));
            lemma_find_row_cat(r1, r2, r2.len() as int, s, a);
            lemma_block_rows_lookup(b, b.edges.len() as int, s, a);
            lemma_find_block_props(blocks, i as int, s);
            lemma_find_block_props(blocks, i - 1, s);
            match find_row(r1, r1.len() as int, s, a) {
                Some(x) => {
                    lemma_find_row_props(r1, r1.len() as int, s, a);
                    assert(rows[x] == r1[x]);
                },
                None => {
                    match find_row(r2, r2.len() as int, s, a) {
                        Some(y) => {
                            lemma_find_row_props(r2, r2.len() as int, s, a);
                            assert(rows[r1.len() as int + y] == r2[y]);
                            assert(s == b.state);
                            assert(crate::ast::find_block(blocks, i - 1, s) is None);
                            assert(crate::ast::find_block(blocks, i, s) == Some(i - 1));
                        },
                        None => {
                            if crate::ast::find_block(blocks, i, s) == Some(i - 1) {
                                assert(blocks[i - 1].state == s);
                            }
                        },
                    }
                },
            }
        }
    }
}

/// Generator correctness: looking `(s, a)` up in the compiled rows yields
/// precisely the allowed-target set the specification declares for that
/// pair — the first block for `s` decides, and within it the first edge
/// declaring `a`.
pub proof fn lemma_table_reflects_ast(sp: SpecV, s: Seq<u8>, a: Seq<u8>)
    ensures
        ({
            let rows = crate::table::table_rows(sp);
            match find_row(rows, rows.len() as int, s, a) {
                None => crate::ast::ast_targets(sp, s, a) is None,
                Some(x) => crate::ast::ast_targets(sp, s, a) == Some(rows[x].targets),
            }
        }),
{
    lemma_rows_pre_lookup(sp.blocks, sp.blocks.len() as int, s, a);
}

/// A terminal state — one that no block declares as its own — has no
/// dispatch row, so `advance` returns every action offered to it unchanged.
pub proof fn lemma_terminal_state_rejects(sp: SpecV, s: Seq<u8>, a: Seq<u8>)
    requires
        forall|i: int| 0 <= i < sp.blocks.len() ==> (#[trigger] sp.blocks[i]).state != s,
    ensures
        edge_lookup(crate::table::table_of(sp), s, a) is None,
{
    lemma_table_reflects_ast(sp, s, a);
    lemma_find_block_props(sp.blocks, sp.blocks.len() as int, s);
    if edge_lookup(crate::table::table_of(sp), s, a) is Some {
        assert(crate::ast::ast_targets(sp, s, a) is Some);
    }
}

impl DispatchTable {
    /// The transition routine.  If an edge is declared for the current state
    /// tag and the incoming action tag, the host's transition capability is
    /// invoked with full ownership of the state payload and the action; the
    /// returned state is accepted only if its variant belongs to the edge's
    /// declared allowed-target set.  With no declared edge — in particular in
    /// every terminal state — the original pair comes back unchanged.
    pub fn advance<P, Q>(&self, s: StateValue<P>, a: ActionValue<Q>) -> (r: Result<
        StateValue<P>, AdvanceError<P, Q>>)
        where P: State<StateValue<P>, ActionValue<Q>>,
        ensures
            match r {
                Result::Ok(ns) => match edge_lookup(self@, s.kind@, a.kind@) {
                    Some(i) => self@.edges[i].targets.contains(ns.kind@)
                        && advance_outcome(self@, s.kind@, a.kind@, ns.kind@)
                            == Outcome::Advanced,
                    None => false,
                },
                Result::Err(e) => match e {
                    AdvanceError::Rejected(s2, a2) => edge_lookup(self@, s.kind@, a.kind@)
                        is None && s2 == s && a2 == a && forall|rk: Seq<u8>|
                        advance_outcome(self@, s.kind@, a.kind@, rk) == Outcome::Rejected,
                    AdvanceError::ContractViolation(v) => match edge_lookup(
                        self@, s.kind@, a.kind@) {
                        Some(i) => !self@.edges[i].targets.contains(v.returned@)
                            && v.state@ == s.kind@ && v.action@ == a.kind@
                            && seq_views(v.allowed@) == self@.edges[i].targets
                            && advance_outcome(self@, s.kind@, a.kind@, v.returned@)
                                == Outcome::Violated,
                        None => false,
                    },
                },
            },
            (r matches Result::Err(AdvanceError::Rejected(..))) <==> edge_lookup(
                self@, s.kind@, a.kind@) is None,
    {
        match find_edge(&self.edges, &s.kind, &a.kind) {
            None => Err(AdvanceError::Rejected(s, a)),
            Some(i) => {
                let state_name = copy_id(&s.kind);
                let action_name = copy_id(&a.kind);
                let row = &self.edges[i];
                proof {
                    assert(self@.edges[i as int] == self.edges@[i as int]@);
                }
                let StateValue { kind: _, payload } = s;
                let ns = payload.next(a);
                match check_handler_result(&state_name, &action_name, &row.targets, ns) {
                    Ok(ns) => Ok(ns),
                    Err(v) => Err(AdvanceError::ContractViolation(v)),
                }
            },
        }
    }
}

} // verus!
