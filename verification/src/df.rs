//! The generic worklist dataflow engine.
//!
//! An analysis supplies a direction, a bottom state, a merge and a transfer
//! function, each specified against a mathematical model of its state, and
//! proves three lattice laws: the bottom state lies below everything, and
//! merge and transfer are monotone.  The engine seeds a worklist with every
//! block and reprocesses a block whenever the value it depends on changes;
//! when the worklist empties, the dataflow equations hold at every block,
//! and the laws make the result the least of their solutions.  A step budget
//! bounds the work: the engine gives up, rather than diverging, if a
//! non-monotone analysis never settles.

use vstd::prelude::*;

use crate::cfg::{graph_in_bounds, graph_inverse, graph_view};
use crate::block::blocks_view;
use crate::ir::{codes_view, Code, CodeView};

verus! {

broadcast use vstd::seq_lib::lemma_seq_contains_after_push;

/// A dataflow analysis: direction, lattice state, merge and transfer.
///
/// The executable pieces are specified against `model`, the mathematical
/// value of a state; `inv` is the well-formedness the analysis maintains on
/// its states.
pub trait DataFlowAnalysis {
    /// The runtime state attached to a block.
    type State;

    /// The mathematical value of a state.
    type StateModel;

    /// True for a forward analysis, false for a backward one.
    spec fn forward() -> bool;

    /// Well-formedness of a runtime state.
    spec fn inv(s: Self::State) -> bool;

    /// The mathematical value of a runtime state.
    spec fn model(s: Self::State) -> Self::StateModel;

    /// The lattice order on state models.
    spec fn model_le(a: Self::StateModel, b: Self::StateModel) -> bool;

    /// The model of the initial (bottom) state.
    spec fn init_model() -> Self::StateModel;

    /// The model of merging a sequence of incoming values.
    spec fn merge_model(inputs: Seq<Self::StateModel>) -> Self::StateModel;

    /// The model of pushing a value through a block.
    spec fn transfer_model(
        block: Seq<CodeView>,
        block_id: int,
        input: Self::StateModel,
    ) -> Self::StateModel;

    /// The initial (bottom) state.
    fn initial_state() -> (s: Self::State)
        ensures
            Self::inv(s),
            Self::model(s) == Self::init_model(),
    ;

    /// Runtime direction test.
    fn direction() -> (b: bool)
        ensures
            b == Self::forward(),
    ;

    /// The initial value lies below every model: it is the lattice bottom.
    proof fn lemma_init_least(m: Self::StateModel)
        ensures
            Self::model_le(Self::init_model(), m),
    ;

    /// Merging is monotone in its inputs.
    proof fn lemma_merge_monotone(a: Seq<Self::StateModel>, b: Seq<Self::StateModel>)
        requires
            a.len() == b.len(),
            forall|i: int| 0 <= i < a.len() ==> Self::model_le(#[trigger] a[i], b[i]),
        ensures
            Self::model_le(Self::merge_model(a), Self::merge_model(b)),
    ;

    /// The transfer is monotone in its incoming value.
    proof fn lemma_transfer_monotone(
        block: Seq<CodeView>,
        block_id: int,
        a: Self::StateModel,
        b: Self::StateModel,
    )
        requires
            Self::model_le(a, b),
        ensures
            Self::model_le(
                Self::transfer_model(block, block_id, a),
                Self::transfer_model(block, block_id, b),
            ),
    ;

    /// Merges the values flowing in from a block's neighbours.
    fn merge(inputs: &Vec<&Self::State>) -> (s: Self::State)
        requires
            forall|i: int| 0 <= i < inputs@.len() ==> Self::inv(*#[trigger] inputs@[i]),
        ensures
            Self::inv(s),
            Self::model(s) == Self::merge_model(
                inputs@.map_values(|x: &Self::State| Self::model(*x)),
            ),
    ;

    /// Pushes a value through block `block_id`.
    fn transfer(block: &Vec<Code>, block_id: usize, input: &Self::State) -> (s: Self::State)
        requires
            Self::inv(*input),
        ensures
            Self::inv(s),
            Self::model(s) == Self::transfer_model(
                codes_view(block@),
                block_id as int,
                Self::model(*input),
            ),
    ;

    /// Whether two states have the same value.
    fn same_state(a: &Self::State, b: &Self::State) -> (r: bool)
        requires
            Self::inv(*a),
            Self::inv(*b),
        ensures
            r == (Self::model(*a) == Self::model(*b)),
    ;
}

/// The models of a vector of states.
pub open spec fn states_models<A: DataFlowAnalysis>(v: Seq<A::State>) -> Seq<A::StateModel> {
    v.map_values(|s: A::State| A::model(s))
}

/// The merge of the values stored at a list of neighbour blocks.
pub open spec fn merged_from<A: DataFlowAnalysis>(
    values: Seq<A::StateModel>,
    nbrs: Seq<usize>,
) -> A::StateModel {
    A::merge_model(nbrs.map_values(|p: usize| values[p as int]))
}

/// The dataflow equations of analysis `A` hold at block `b`.
pub open spec fn equations_at<A: DataFlowAnalysis>(
    blocks: Seq<Seq<CodeView>>,
    pred: Seq<Seq<usize>>,
    succ: Seq<Seq<usize>>,
    ins: Seq<A::StateModel>,
    outs: Seq<A::StateModel>,
    b: int,
) -> bool {
    if A::forward() {
        ins[b] == merged_from::<A>(outs, pred[b]) && outs[b] == A::transfer_model(
            blocks[b],
            b,
            ins[b],
        )
    } else {
        outs[b] == merged_from::<A>(ins, succ[b]) && ins[b] == A::transfer_model(
            blocks[b],
            b,
            outs[b],
        )
    }
}

/// The dataflow equations of analysis `A` hold at every block.
pub open spec fn dataflow_fixpoint<A: DataFlowAnalysis>(
    blocks: Seq<Seq<CodeView>>,
    pred: Seq<Seq<usize>>,
    succ: Seq<Seq<usize>>,
    ins: Seq<A::StateModel>,
    outs: Seq<A::StateModel>,
) -> bool {
    &&& ins.len() == blocks.len()
    &&& outs.len() == blocks.len()
    &&& forall|b: int|
        0 <= b < blocks.len() ==> #[trigger] equations_at::<A>(blocks, pred, succ, ins, outs, b)
}

/// The first table lies pointwise below the second, in the analysis's order.
pub open spec fn below_solution<A: DataFlowAnalysis>(
    cur: Seq<A::StateModel>,
    other: Seq<A::StateModel>,
    n: int,
) -> bool {
    forall|w: int| 0 <= w < n ==> A::model_le(#[trigger] cur[w], other[w])
}

/// Runs analysis `A` to a fixpoint over the given blocks and graph.
///
/// IN and OUT start at the analysis's bottom value and every block starts on
/// the worklist; a popped block is re-evaluated and its dependents are
/// re-queued when its value changed.  Returns the IN and OUT tables, which
/// then satisfy the dataflow equations at every block and lie below every
/// other solution of the equations — the least fixpoint — or `None` when
/// `budget` work-steps were not enough to settle.  An empty block list
/// always succeeds.
#[verifier::loop_isolation(false)]
#[verifier::rlimit(60)]
pub fn find<A: DataFlowAnalysis>(
    blocks: &Vec<Vec<Code>>,
    pred: &Vec<Vec<usize>>,
    succ: &Vec<Vec<usize>>,
    budget: usize,
) -> (r: Option<(Vec<A::State>, Vec<A::State>)>)
    requires
        pred@.len() == blocks@.len(),
        succ@.len() == blocks@.len(),
        graph_in_bounds(graph_view(pred@)),
        graph_in_bounds(graph_view(succ@)),
        graph_inverse(graph_view(succ@), graph_view(pred@)),
    ensures
        match r {
            Option::Some(tables) => {
                &&& tables.0@.len() == blocks@.len()
                &&& tables.1@.len() == blocks@.len()
                &&& forall|i: int| 0 <= i < blocks@.len() ==> A::inv(#[trigger] tables.0@[i])
                &&& forall|i: int| 0 <= i < blocks@.len() ==> A::inv(#[trigger] tables.1@[i])
                &&& dataflow_fixpoint::<A>(
                    blocks_view(blocks@),
                    graph_view(pred@),
                    graph_view(succ@),
                    states_models::<A>(tables.0@),
                    states_models::<A>(tables.1@),
                )
                &&& forall|ins2: Seq<A::StateModel>, outs2: Seq<A::StateModel>|
                    #[trigger] dataflow_fixpoint::<A>(
                        blocks_view(blocks@),
                        graph_view(pred@),
                        graph_view(succ@),
                        ins2,
                        outs2,
                    ) ==> below_solution::<A>(
                        states_models::<A>(tables.0@),
                        ins2,
                        blocks@.len() as int,
                    ) && below_solution::<A>(
                        states_models::<A>(tables.1@),
                        outs2,
                        blocks@.len() as int,
                    )
            },
            Option::None => true,
        },
        blocks@.len() == 0 ==> r is Some,
{
    let n = blocks.len();
    let ghost bv = blocks_view(blocks@);
    let ghost pv = graph_view(pred@);
    let ghost sv = graph_view(succ@);
    let mut ins: Vec<A::State> = Vec::new();
    let mut outs: Vec<A::State> = Vec::new();
    let mut i: usize = 0;
    while i < n
        invariant
            i <= n,
            ins@.len() == i,
            outs@.len() == i,
            forall|j: int| 0 <= j < i ==> A::inv(#[trigger] ins@[j]),
            forall|j: int| 0 <= j < i ==> A::inv(#[trigger] outs@[j]),
            forall|j: int| 0 <= j < i ==> A::model(#[trigger] ins@[j]) == A::init_model(),
            forall|j: int| 0 <= j < i ==> A::model(#[trigger] outs@[j]) == A::init_model(),
        decreases n - i,
    {
        ins.push(A::initial_state());
        outs.push(A::initial_state());
        i = i + 1;
    }
    let mut worklist: Vec<usize> = Vec::new();
    let mut b0: usize = 0;
    while b0 < n
        invariant
            b0 <= n,
            worklist@.len() == b0,
            forall|j: int| 0 <= j < b0 ==> #[trigger] worklist@[j] == j,
        decreases n - b0,
    {
        worklist.push(b0);
        b0 = b0 + 1;
    }
    proof {
        assert forall|b: int| 0 <= b < n implies #[trigger] worklist@.contains(b as usize) by {
            assert(worklist@[b] == b as usize);
        }
    }
    proof {
        assert forall|i2: Seq<A::StateModel>, o2: Seq<A::StateModel>|
            #[trigger] dataflow_fixpoint::<A>(bv, pv, sv, i2, o2) implies below_solution::<A>(
            states_models::<A>(ins@),
            i2,
            n as int,
        ) && below_solution::<A>(states_models::<A>(outs@), o2, n as int) by {
            assert forall|w: int| 0 <= w < n implies A::model_le(
                #[trigger] states_models::<A>(ins@)[w],
                i2[w],
            ) by {
                A::lemma_init_least(i2[w]);
                assert(states_models::<A>(ins@)[w] == A::init_model());
            }
            assert forall|w: int| 0 <= w < n implies A::model_le(
                #[trigger] states_models::<A>(outs@)[w],
                o2[w],
            ) by {
                A::lemma_init_least(o2[w]);
                assert(states_models::<A>(outs@)[w] == A::init_model());
            }
        }
    }
    let forward = A::direction();
    let mut remaining = budget;
    while worklist.len() > 0
        invariant
            ins@.len() == n,
            outs@.len() == n,
            forall|j: int| 0 <= j < n ==> A::inv(#[trigger] ins@[j]),
            forall|j: int| 0 <= j < n ==> A::inv(#[trigger] outs@[j]),
            forall|j: int| 0 <= j < worklist@.len() ==> #[trigger] worklist@[j] < n,
            forward == A::forward(),
            forall|b: int|
                0 <= b < n && !worklist@.contains(b as usize) ==> #[trigger] equations_at::<A>(
                    bv,
                    pv,
                    sv,
                    states_models::<A>(ins@),
                    states_models::<A>(outs@),
                    b,
                ),
            forall|i2: Seq<A::StateModel>, o2: Seq<A::StateModel>|
                #[trigger] dataflow_fixpoint::<A>(bv, pv, sv, i2, o2) ==> below_solution::<A>(
                    states_models::<A>(ins@),
                    i2,
                    n as int,
                ) && below_solution::<A>(states_models::<A>(outs@), o2, n as int),
        decreases remaining,
    {
        if remaining == 0 {
            proof {
                assert(worklist@[0] < n);
            }
            return Option::None;
        }
        remaining = remaining - 1;
        let ghost old_worklist = worklist@;
        let b = match worklist.pop() {
            Option::Some(x) => x,
            Option::None => {
                proof {
                    assert(false);
                }
                return Option::None;
            },
        };
        let ghost ins_m0 = states_models::<A>(ins@);
        let ghost outs_m0 = states_models::<A>(outs@);
        proof {
            assert(forall|i2: Seq<A::StateModel>, o2: Seq<A::StateModel>|
                #[trigger] dataflow_fixpoint::<A>(bv, pv, sv, i2, o2) ==> below_solution::<A>(
                    ins_m0,
                    i2,
                    n as int,
                ) && below_solution::<A>(outs_m0, o2, n as int));
        }
        if forward {
            let mut refs: Vec<&A::State> = Vec::new();
            let pl = pred[b].len();
            let mut k: usize = 0;
            while k < pl
                invariant
                    k <= pl,
                    b < n,
                    pl == pv[b as int].len(),
                    refs@.len() == k,
                    forall|j: int| 0 <= j < k ==> A::inv(*#[trigger] refs@[j]),
                    forall|j: int|
                        0 <= j < k ==> A::model(*#[trigger] refs@[j]) == states_models::<A>(
                            outs@,
                        )[pv[b as int][j] as int],
                decreases pl - k,
            {
                let p = pred[b][k];
                refs.push(&outs[p]);
                k = k + 1;
            }
            let newin = A::merge(&refs);
            proof {
                assert(refs@.map_values(|x: &A::State| A::model(*x)) =~= pv[b as int].map_values(
                    |p: usize| states_models::<A>(outs@)[p as int],
                ));
                assert(A::model(newin) == merged_from::<A>(states_models::<A>(outs@), pv[b as int]));
            }
            ins[b] = newin;
            proof {
                assert(states_models::<A>(ins@) =~= ins_m0.update(
                    b as int,
                    A::model(ins@[b as int]),
                ));
            }
            let newout = A::transfer(&blocks[b], b, &ins[b]);
            let changed = !A::same_state(&outs[b], &newout);
            if changed {
                let sl = succ[b].len();
                let mut k2: usize = 0;
                while k2 < sl
                    invariant
                        k2 <= sl,
                        b < n,
                        sl == sv[b as int].len(),
                        forall|j: int| 0 <= j < worklist@.len() ==> #[trigger] worklist@[j] < n,
                        forall|x: usize|
                            old_worklist.drop_last().contains(x) ==> #[trigger] worklist@.contains(
                                x,
                            ),
                        forall|j: int|
                            0 <= j < k2 ==> worklist@.contains(#[trigger] sv[b as int][j]),
                    decreases sl - k2,
                {
                    worklist.push(succ[b][k2]);
                    k2 = k2 + 1;
                }
            }
            let ghost outs_m1 = states_models::<A>(outs@);
            outs[b] = newout;
            proof {
                let ins_m = states_models::<A>(ins@);
                let outs_m = states_models::<A>(outs@);
                assert(outs_m =~= outs_m1.update(b as int, A::model(outs@[b as int])));
                assert(outs_m1 =~= outs_m0);
                assert(ins_m =~= ins_m0.update(b as int, ins_m[b as int]));
                assert(outs_m[b as int] == A::transfer_model(bv[b as int], b as int, ins_m[b as int]));
                if !changed {
                    assert(outs_m =~= outs_m0);
                }
                assert forall|w: int|
                    0 <= w < n && !worklist@.contains(w as usize) implies #[trigger] equations_at::<
                    A,
                >(bv, pv, sv, ins_m, outs_m, w) by {
                    if w == b as int {
                        // its own equations were just recomputed; a changed
                        // out would have pushed b back through a self-loop
                        assert(ins_m[w] == merged_from::<A>(outs_m0, pv[w]));
                        if changed {
                            assert(!pv[w].contains(b)) by {
                                if pv[w].contains(b) {
                                    assert(sv[b as int].contains(b));
                                    let j = choose|j: int|
                                        0 <= j < sv[b as int].len() && sv[b as int][j] == b;
                                    assert(worklist@.contains(sv[b as int][j]));
                                }
                            }
                        }
                        assert(pv[w].map_values(|p: usize| outs_m[p as int]) =~= pv[w].map_values(
                            |p: usize| outs_m0[p as int],
                        ));
                        assert(ins_m[w] == merged_from::<A>(outs_m, pv[w]));
                    } else {
                        // w sat outside the old worklist, and anything that
                        // depends on b was pushed
                        assert(!old_worklist.contains(w as usize)) by {
                            if old_worklist.contains(w as usize) {
                                let j = choose|j: int|
                                    0 <= j < old_worklist.len() && old_worklist[j] == w as usize;
                                assert(j < old_worklist.len() - 1);
                                assert(old_worklist.drop_last()[j] == w as usize);
                                assert(worklist@.contains(w as usize));
                            }
                        }
                        assert(equations_at::<A>(bv, pv, sv, ins_m0, outs_m0, w));
                        assert(ins_m[w] == ins_m0[w]);
                        assert(outs_m[w] == outs_m0[w]);
                        if changed {
                            assert(!pv[w].contains(b)) by {
                                if pv[w].contains(b) {
                                    assert(sv[b as int].contains(w as usize));
                                    let j = choose|j: int|
                                        0 <= j < sv[b as int].len() && sv[b as int][j]
                                            == w as usize;
                                    assert(worklist@.contains(sv[b as int][j]));
                                }
                            }
                        }
                        assert(pv[w].map_values(|p: usize| outs_m[p as int]) =~= pv[w].map_values(
                            |p: usize| outs_m0[p as int],
                        )) by {
                            assert forall|j: int| 0 <= j < pv[w].len() implies outs_m[(
                            #[trigger] pv[w][j]) as int] == outs_m0[pv[w][j] as int] by {
                                if pv[w][j] == b {
                                    assert(pv[w].contains(b));
                                }
                            }
                        }
                        assert(ins_m[w] == merged_from::<A>(outs_m, pv[w]));
                        assert(outs_m[w] == A::transfer_model(bv[w], w, ins_m[w]));
                    }
                }
                // the tables stay below every solution of the equations
                assert forall|i2: Seq<A::StateModel>, o2: Seq<A::StateModel>|
                    #[trigger] dataflow_fixpoint::<A>(bv, pv, sv, i2, o2) implies below_solution::<
                    A,
                >(ins_m, i2, n as int) && below_solution::<A>(outs_m, o2, n as int) by {
                    assert(below_solution::<A>(ins_m0, i2, n as int) && below_solution::<A>(
                        outs_m0,
                        o2,
                        n as int,
                    ));
                    assert forall|w2: int| 0 <= w2 < n implies A::model_le(
                        #[trigger] ins_m[w2],
                        i2[w2],
                    ) && A::model_le(#[trigger] outs_m[w2], o2[w2]) by {
                        assert(A::model_le(ins_m0[w2], i2[w2]));
                        assert(A::model_le(outs_m0[w2], o2[w2]));
                        if w2 == b as int {
                            assert(equations_at::<A>(bv, pv, sv, i2, o2, w2));
                            let s1 = pv[w2].map_values(|p: usize| outs_m0[p as int]);
                            let s2 = pv[w2].map_values(|p: usize| o2[p as int]);
                            assert forall|j: int| 0 <= j < s1.len() implies A::model_le(
                                #[trigger] s1[j],
                                s2[j],
                            ) by {
                                assert(pv[w2][j] < n);
                                assert(A::model_le(
                                    outs_m0[pv[w2][j] as int],
                                    o2[pv[w2][j] as int],
                                ));
                            }
                            A::lemma_merge_monotone(s1, s2);
                            assert(ins_m[w2] == A::merge_model(s1));
                            assert(i2[w2] == A::merge_model(s2));
                            A::lemma_transfer_monotone(bv[w2], w2, ins_m[w2], i2[w2]);
                            assert(outs_m[w2] == A::transfer_model(bv[w2], w2, ins_m[w2]));
                            assert(o2[w2] == A::transfer_model(bv[w2], w2, i2[w2]));
                        } else {
                            assert(ins_m[w2] == ins_m0[w2]);
                            assert(outs_m[w2] == outs_m0[w2]);
                        }
                    }
                }
            }
        } else {
            let mut refs: Vec<&A::State> = Vec::new();
            let sl = succ[b].len();
            let mut k: usize = 0;
            while k < sl
                invariant
                    k <= sl,
                    b < n,
                    sl == sv[b as int].len(),
                    refs@.len() == k,
                    forall|j: int| 0 <= j < k ==> A::inv(*#[trigger] refs@[j]),
                    forall|j: int|
                        0 <= j < k ==> A::model(*#[trigger] refs@[j]) == states_models::<A>(
                            ins@,
                        )[sv[b as int][j] as int],
                decreases sl - k,
            {
                let s = succ[b][k];
                refs.push(&ins[s]);
                k = k + 1;
            }
            let newout = A::merge(&refs);
            proof {
                assert(refs@.map_values(|x: &A::State| A::model(*x)) =~= sv[b as int].map_values(
                    |p: usize| states_models::<A>(ins@)[p as int],
                ));
                assert(A::model(newout) == merged_from::<A>(states_models::<A>(ins@), sv[b as int]));
            }
            outs[b] = newout;
            proof {
                assert(states_models::<A>(outs@) =~= outs_m0.update(
                    b as int,
                    A::model(outs@[b as int]),
                ));
            }
            let newin = A::transfer(&blocks[b], b, &outs[b]);
            let changed = !A::same_state(&ins[b], &newin);
            if changed {
                let pl = pred[b].len();
                let mut k2: usize = 0;
                while k2 < pl
                    invariant
                        k2 <= pl,
                        b < n,
                        pl == pv[b as int].len(),
                        forall|j: int| 0 <= j < worklist@.len() ==> #[trigger] worklist@[j] < n,
                        forall|x: usize|
                            old_worklist.drop_last().contains(x) ==> #[trigger] worklist@.contains(
                                x,
                            ),
                        forall|j: int|
                            0 <= j < k2 ==> worklist@.contains(#[trigger] pv[b as int][j]),
                    decreases pl - k2,
                {
                    worklist.push(pred[b][k2]);
                    k2 = k2 + 1;
                }
            }
            let ghost ins_m1 = states_models::<A>(ins@);
            ins[b] = newin;
            proof {
                let ins_m = states_models::<A>(ins@);
                let outs_m = states_models::<A>(outs@);
                assert(ins_m =~= ins_m1.update(b as int, A::model(ins@[b as int])));
                assert(ins_m1 =~= ins_m0);
                assert(outs_m =~= outs_m0.update(b as int, outs_m[b as int]));
                assert(ins_m[b as int] == A::transfer_model(bv[b as int], b as int, outs_m[b as int]));
                if !changed {
                    assert(ins_m =~= ins_m0);
                }
                assert forall|w: int|
                    0 <= w < n && !worklist@.contains(w as usize) implies #[trigger] equations_at::<
                    A,
                >(bv, pv, sv, ins_m, outs_m, w) by {
                    if w == b as int {
                        assert(outs_m[w] == merged_from::<A>(ins_m0, sv[w]));
                        if changed {
                            assert(!sv[w].contains(b)) by {
                                if sv[w].contains(b) {
                                    assert(pv[b as int].contains(b));
                                    let j = choose|j: int|
                                        0 <= j < pv[b as int].len() && pv[b as int][j] == b;
                                    assert(worklist@.contains(pv[b as int][j]));
                                }
                            }
                        }
                        assert(sv[w].map_values(|p: usize| ins_m[p as int]) =~= sv[w].map_values(
                            |p: usize| ins_m0[p as int],
                        ));
                        assert(outs_m[w] == merged_from::<A>(ins_m, sv[w]));
                    } else {
                        assert(!old_worklist.contains(w as usize)) by {
                            if old_worklist.contains(w as usize) {
                                let j = choose|j: int|
                                    0 <= j < old_worklist.len() && old_worklist[j] == w as usize;
                                assert(j < old_worklist.len() - 1);
                                assert(old_worklist.drop_last()[j] == w as usize);
                                assert(worklist@.contains(w as usize));
                            }
                        }
                        assert(equations_at::<A>(bv, pv, sv, ins_m0, outs_m0, w));
                        assert(ins_m[w] == ins_m0[w]);
                        assert(outs_m[w] == outs_m0[w]);
                        if changed {
                            assert(!sv[w].contains(b)) by {
                                if sv[w].contains(b) {
                                    assert(pv[b as int].contains(w as usize));
                                    let j = choose|j: int|
                                        0 <= j < pv[b as int].len() && pv[b as int][j]
                                            == w as usize;
                                    assert(worklist@.contains(pv[b as int][j]));
                                }
                            }
                        }
                        assert(sv[w].map_values(|p: usize| ins_m[p as int]) =~= sv[w].map_values(
                            |p: usize| ins_m0[p as int],
                        )) by {
                            assert forall|j: int| 0 <= j < sv[w].len() implies ins_m[(
                            #[trigger] sv[w][j]) as int] == ins_m0[sv[w][j] as int] by {
                                if sv[w][j] == b {
                                    assert(sv[w].contains(b));
                                }
                            }
                        }
                        assert(outs_m[w] == merged_from::<A>(ins_m, sv[w]));
                        assert(ins_m[w] == A::transfer_model(bv[w], w, outs_m[w]));
                    }
                }
                // the tables stay below every solution of the equations
                assert forall|i2: Seq<A::StateModel>, o2: Seq<A::StateModel>|
                    #[trigger] dataflow_fixpoint::<A>(bv, pv, sv, i2, o2) implies below_solution::<
                    A,
                >(ins_m, i2, n as int) && below_solution::<A>(outs_m, o2, n as int) by {
                    assert(below_solution::<A>(ins_m0, i2, n as int) && below_solution::<A>(
                        outs_m0,
                        o2,
                        n as int,
                    ));
                    assert forall|w2: int| 0 <= w2 < n implies A::model_le(
                        #[trigger] ins_m[w2],
                        i2[w2],
                    ) && A::model_le(#[trigger] outs_m[w2], o2[w2]) by {
                        assert(A::model_le(ins_m0[w2], i2[w2]));
                        assert(A::model_le(outs_m0[w2], o2[w2]));
                        if w2 == b as int {
                            assert(equations_at::<A>(bv, pv, sv, i2, o2, w2));
                            let s1 = sv[w2].map_values(|p: usize| ins_m0[p as int]);
                            let s2 = sv[w2].map_values(|p: usize| i2[p as int]);
                            assert forall|j: int| 0 <= j < s1.len() implies A::model_le(
                                #[trigger] s1[j],
                                s2[j],
                            ) by {
                                assert(sv[w2][j] < n);
                                assert(A::model_le(
                                    ins_m0[sv[w2][j] as int],
                                    i2[sv[w2][j] as int],
                                ));
                            }
                            A::lemma_merge_monotone(s1, s2);
                            assert(outs_m[w2] == A::merge_model(s1));
                            assert(o2[w2] == A::merge_model(s2));
                            A::lemma_transfer_monotone(bv[w2], w2, outs_m[w2], o2[w2]);
                            assert(ins_m[w2] == A::transfer_model(bv[w2], w2, outs_m[w2]));
                            assert(i2[w2] == A::transfer_model(bv[w2], w2, o2[w2]));
                        } else {
                            assert(ins_m[w2] == ins_m0[w2]);
                            assert(outs_m[w2] == outs_m0[w2]);
                        }
                    }
                }
            }
        }
    }
    Option::Some((ins, outs))
}

} // verus!
