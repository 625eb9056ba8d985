//! Building the control-flow graph from the basic-block list.
//!
//! A graph is a vector of edge lists indexed by block position; block 0 is the
//! entry.  A block ending in a jump or branch gets one edge per target label,
//! in label-declaration order; a block that does not end in a terminator and
//! is not last falls through to the next block; a return block has no
//! successors.

use vstd::prelude::*;

use crate::block::blocks_view;
use crate::error::AnalysisError;
use crate::ir::{Code, CodeView, EffectOp, Instruction, InstructionView};

verus! {

broadcast use vstd::seq_lib::lemma_seq_contains_after_push;

/// The sequence of edge lists a graph stands for.
pub open spec fn graph_view(g: Seq<Vec<usize>>) -> Seq<Seq<usize>> {
    g.map_values(|v: Vec<usize>| v@)
}

/// Every edge of the graph stays inside the graph.
pub open spec fn graph_in_bounds(g: Seq<Seq<usize>>) -> bool {
    forall|i: int, k: int|
        0 <= i < g.len() && 0 <= k < g[i].len() ==> #[trigger] g[i][k] < g.len()
}

/// `pred` is the edge-reversal of `succ`: an edge u -> v stands in `succ`
/// exactly when v -> u stands in `pred`.
pub open spec fn graph_inverse(succ: Seq<Seq<usize>>, pred: Seq<Seq<usize>>) -> bool {
    &&& pred.len() == succ.len()
    &&& forall|u: usize, v: usize|
        0 <= u < succ.len() && 0 <= v < succ.len() ==> (#[trigger] pred[v as int].contains(u)
            <==> #[trigger] succ[u as int].contains(v))
}

/// A strictly increasing (hence duplicate-free) list of indices.
pub open spec fn strictly_increasing(s: Seq<usize>) -> bool {
    forall|i: int, j: int| 0 <= i < j < s.len() ==> s[i] < s[j]
}

/// The label a block starts with, if any.
pub open spec fn first_label(b: Seq<CodeView>) -> Option<Seq<char>> {
    if b.len() > 0 {
        match b[0] {
            CodeView::Label { label } => Option::Some(label),
            _ => Option::None,
        }
    } else {
        Option::None
    }
}

/// True when block `i` is the block that label `l` names.
pub open spec fn is_label_index(bs: Seq<Seq<CodeView>>, l: Seq<char>, i: int) -> bool {
    0 <= i < bs.len() && first_label(bs[i]) == Option::Some(l)
}

/// True when some block starts with label `l`.
pub open spec fn resolves(bs: Seq<Seq<CodeView>>, l: Seq<char>) -> bool {
    exists|i: int| is_label_index(bs, l, i)
}

/// True when exactly one block starts with label `l`.
pub open spec fn resolves_uniquely(bs: Seq<Seq<CodeView>>, l: Seq<char>) -> bool {
    exists|i: int|
        is_label_index(bs, l, i) && (forall|j: int| is_label_index(bs, l, j) ==> j == i)
}

/// True of a block whose last item is a jump or a branch.
pub open spec fn is_jump_or_branch(b: Seq<CodeView>) -> bool {
    b.len() > 0 && match b.last() {
        CodeView::Instruction(InstructionView::Effect { op, .. }) => op is Jump || op is Branch,
        _ => false,
    }
}

/// The target labels of a block that ends in a jump or branch.
pub open spec fn jump_target_labels(b: Seq<CodeView>) -> Seq<Seq<char>>
    recommends
        is_jump_or_branch(b),
{
    match b.last() {
        CodeView::Instruction(InstructionView::Effect { labels, .. }) => labels,
        _ => Seq::empty(),
    }
}

/// True of a block whose last item is a return.
pub open spec fn ends_with_return(b: Seq<CodeView>) -> bool {
    b.len() > 0 && match b.last() {
        CodeView::Instruction(InstructionView::Effect { op, .. }) => op is Return,
        _ => false,
    }
}

/// Every label referenced by a jump or branch names exactly one block.
pub open spec fn all_targets_resolve(bs: Seq<Seq<CodeView>>) -> bool {
    forall|i: int, k: int|
        0 <= i < bs.len() && is_jump_or_branch(bs[i]) && 0 <= k < jump_target_labels(
            bs[i],
        ).len() ==> resolves_uniquely(bs, #[trigger] jump_target_labels(bs[i])[k])
}

/// The successor list of block `i` is exactly what its terminator dictates.
pub open spec fn succ_of_block(bs: Seq<Seq<CodeView>>, succ: Seq<Seq<usize>>, i: int) -> bool
    recommends
        0 <= i < bs.len(),
        succ.len() == bs.len(),
{
    if is_jump_or_branch(bs[i]) {
        &&& succ[i].len() == jump_target_labels(bs[i]).len()
        &&& forall|k: int|
            0 <= k < succ[i].len() ==> is_label_index(
                bs,
                jump_target_labels(bs[i])[k],
                #[trigger] succ[i][k] as int,
            )
    } else if i < bs.len() - 1 && !ends_with_return(bs[i]) {
        succ[i] == seq![(i + 1) as usize]
    } else {
        succ[i] == Seq::<usize>::empty()
    }
}

/// The whole successor map is what the blocks dictate.
pub open spec fn cfg_succ(bs: Seq<Seq<CodeView>>, succ: Seq<Seq<usize>>) -> bool {
    &&& succ.len() == bs.len()
    &&& forall|i: int| 0 <= i < bs.len() ==> #[trigger] succ_of_block(bs, succ, i)
}

/// Runtime membership test on a list of block indices.
pub fn contains_usize(v: &Vec<usize>, x: usize) -> (r: bool)
    ensures
        r == v@.contains(x),
{
    let mut i: usize = 0;
    while i < v.len()
        invariant
            i <= v.len(),
            forall|j: int| 0 <= j < i ==> v@[j] != x,
        decreases v.len() - i,
    {
        if v[i] == x {
            return true;
        }
        i = i + 1;
    }
    false
}

/// Finds the one block that starts with `label`.
///
/// Returns `MissingLabel` when no block starts with it and `DuplicateLabel`
/// when more than one does.
#[verifier::loop_isolation(false)]
pub fn find_label_block(blocks: &Vec<Vec<Code>>, label: &String) -> (r: Result<
    usize,
    AnalysisError,
>)
    ensures
        match r {
            Result::Ok(i) => is_label_index(blocks_view(blocks@), label@, i as int) && (forall|
                j: int,
            |
                is_label_index(blocks_view(blocks@), label@, j) ==> j == i as int),
            Result::Err(e) => {
                &&& !resolves_uniquely(blocks_view(blocks@), label@)
                &&& (e is MissingLabel || e is DuplicateLabel)
                &&& (e matches AnalysisError::MissingLabel { label: l } ==> l@ == label@
                    && !resolves(blocks_view(blocks@), label@))
                &&& (e matches AnalysisError::DuplicateLabel { label: l } ==> l@ == label@
                    && exists|i: int, j: int|
                        i != j && #[trigger] is_label_index(blocks_view(blocks@), label@, i)
                            && #[trigger] is_label_index(blocks_view(blocks@), label@, j))
            },
        },
{
    let ghost bs = blocks_view(blocks@);
    let mut found: Option<usize> = None;
    let mut i: usize = 0;
    while i < blocks.len()
        invariant
            i <= blocks.len(),
            match found {
                Option::Some(f) => f < i && is_label_index(bs, label@, f as int) && (forall|j: int|
                    0 <= j < i && is_label_index(bs, label@, j) ==> j == f as int),
                Option::None => forall|j: int| 0 <= j < i ==> !is_label_index(bs, label@, j),
            },
        decreases blocks.len() - i,
    {
        let b = &blocks[i];
        proof {
            assert(bs[i as int] == crate::ir::codes_view(blocks@[i as int]@));
        }
        if b.len() > 0 {
            if let Code::Label { label: l } = &b[0] {
                proof {
                    assert(bs[i as int][0] == blocks@[i as int]@[0]@);
                }
                if *l == *label {
                    match found {
                        Option::Some(f) => {
                            proof {
                                assert(is_label_index(bs, label@, i as int));
                                assert(is_label_index(bs, label@, f as int));
                                assert(f as int != i as int);
                                assert(exists|i2: int, j2: int|
                                    i2 != j2 && #[trigger] is_label_index(bs, label@, i2)
                                        && #[trigger] is_label_index(bs, label@, j2)) by {
                                    assert(f as int != i as int && is_label_index(bs, label@, f as int)
                                        && is_label_index(bs, label@, i as int));
                                }
                            }
                            return Result::Err(
                                AnalysisError::DuplicateLabel { label: label.clone() },
                            );
                        },
                        Option::None => {
                            found = Some(i);
                        },
                    }
                }
            }
        }
        i = i + 1;
    }
    match found {
        Option::Some(f) => Result::Ok(f),
        Option::None => Result::Err(AnalysisError::MissingLabel { label: label.clone() }),
    }
}

/// Resolves each label of `labels`, in order, to its block index.
#[verifier::loop_isolation(false)]
pub fn find_block_ids_with_labels(blocks: &Vec<Vec<Code>>, labels: &Vec<String>) -> (r: Result<
    Vec<usize>,
    AnalysisError,
>)
    ensures
        match r {
            Result::Ok(ids) => {
                &&& ids@.len() == labels@.len()
                &&& forall|k: int|
                    0 <= k < labels@.len() ==> is_label_index(
                        blocks_view(blocks@),
                        labels@[k]@,
                        #[trigger] ids@[k] as int,
                    )
                &&& forall|k: int|
                    0 <= k < labels@.len() ==> resolves_uniquely(
                        blocks_view(blocks@),
                        #[trigger] labels@[k]@,
                    )
            },
            Result::Err(e) => {
                &&& exists|k: int|
                    0 <= k < labels@.len() && !resolves_uniquely(
                        blocks_view(blocks@),
                        #[trigger] labels@[k]@,
                    )
                &&& (e is MissingLabel || e is DuplicateLabel)
            },
        },
{
    let mut ids: Vec<usize> = Vec::new();
    let mut k: usize = 0;
    while k < labels.len()
        invariant
            k <= labels.len(),
            ids@.len() == k,
            forall|j: int|
                0 <= j < k ==> is_label_index(
                    blocks_view(blocks@),
                    labels@[j]@,
                    #[trigger] ids@[j] as int,
                ),
            forall|j: int|
                0 <= j < k ==> resolves_uniquely(blocks_view(blocks@), #[trigger] labels@[j]@),
        decreases labels.len() - k,
    {
        match find_label_block(blocks, &labels[k]) {
            Result::Ok(i) => {
                ids.push(i);
            },
            Result::Err(e) => {
                return Result::Err(e);
            },
        }
        k = k + 1;
    }
    Result::Ok(ids)
}

/// Builds the successor map of the control-flow graph.
///
/// Succeeds exactly when the block list is non-empty and every referenced
/// label names exactly one block; the successor lists are then exactly what
/// each block's terminator dictates.
#[verifier::loop_isolation(false)]
pub fn form_cfg(blocks: &Vec<Vec<Code>>) -> (r: Result<Vec<Vec<usize>>, AnalysisError>)
    requires
        forall|i: int| 0 <= i < blocks@.len() ==> #[trigger] blocks@[i]@.len() > 0,
    ensures
        match r {
            Result::Ok(succ) => {
                &&& blocks@.len() > 0
                &&& all_targets_resolve(blocks_view(blocks@))
                &&& cfg_succ(blocks_view(blocks@), graph_view(succ@))
                &&& graph_in_bounds(graph_view(succ@))
            },
            Result::Err(e) => {
                ||| (blocks@.len() == 0 && e is EmptyFunction)
                ||| (!all_targets_resolve(blocks_view(blocks@)) && (e is MissingLabel
                    || e is DuplicateLabel))
            },
        },
{
    let ghost bs = blocks_view(blocks@);
    let n = blocks.len();
    if n == 0 {
        return Result::Err(AnalysisError::EmptyFunction);
    }
    let mut succ: Vec<Vec<usize>> = Vec::new();
    let mut i: usize = 0;
    while i < n
        invariant
            i <= n,
            succ@.len() == i,
            forall|j: int| 0 <= j < i ==> #[trigger] succ_of_block(bs, graph_view(succ@), j),
            forall|j: int, k: int|
                0 <= j < i && 0 <= k < graph_view(succ@)[j].len() ==> #[trigger] graph_view(
                    succ@,
                )[j][k] < n,
            forall|j: int, k: int|
                0 <= j < i && is_jump_or_branch(bs[j]) && 0 <= k < jump_target_labels(
                    bs[j],
                ).len() ==> resolves_uniquely(bs, #[trigger] jump_target_labels(bs[j])[k]),
        decreases n - i,
    {
        let b = &blocks[i];
        proof {
            assert(bs[i as int] == crate::ir::codes_view(blocks@[i as int]@));
            assert(bs[i as int].last() == blocks@[i as int]@.last()@);
        }
        let ghost old_succ = succ@;
        let last = &b[b.len() - 1];
        let mut edges: Vec<usize> = Vec::new();
        match last {
            Code::Instruction(
                Instruction::Effect { op: EffectOp::Jump | EffectOp::Branch, labels, .. },
            ) => {
                match find_block_ids_with_labels(blocks, labels) {
                    Result::Ok(ids) => {
                        edges = ids;
                    },
                    Result::Err(e) => {
                        proof {
                            assert(is_jump_or_branch(bs[i as int]));
                            assert(jump_target_labels(bs[i as int]) == crate::ir::strings_view(
                                labels@,
                            ));
                            let kk = choose|k: int|
                                0 <= k < labels@.len() && !resolves_uniquely(bs, labels@[k]@);
                            assert(jump_target_labels(bs[i as int])[kk] == labels@[kk]@);
                            assert(!all_targets_resolve(bs));
                        }
                        return Result::Err(e);
                    },
                }
                proof {
                    assert(is_jump_or_branch(bs[i as int]));
                    assert(jump_target_labels(bs[i as int]) == crate::ir::strings_view(labels@));
                    assert(forall|k: int|
                        0 <= k < labels@.len() ==> crate::ir::strings_view(labels@)[k]
                            == #[trigger] labels@[k]@);
                }
            },
            _ => {
                let is_ret = matches!(
                    last,
                    Code::Instruction(Instruction::Effect { op: EffectOp::Return, .. })
                );
                proof {
                    assert(is_ret == ends_with_return(bs[i as int]));
                    assert(!is_jump_or_branch(bs[i as int]));
                }
                if i < n - 1 && !is_ret {
                    edges.push(i + 1);
                    proof {
                        assert(edges@ =~= seq![(i + 1) as usize]);
                    }
                }
            },
        }
        succ.push(edges);
        proof {
            assert(graph_view(succ@) =~= graph_view(old_succ).push(succ@.last()@));
            assert(succ_of_block(bs, graph_view(succ@), i as int));
            assert(forall|j: int|
                0 <= j < i ==> graph_view(succ@)[j] == graph_view(old_succ)[j]);
            assert(forall|j: int|
                0 <= j < i && succ_of_block(bs, graph_view(old_succ), j)
                    ==> #[trigger] succ_of_block(bs, graph_view(succ@), j));
        }
        i = i + 1;
    }
    proof {
        assert(all_targets_resolve(bs));
    }
    Result::Ok(succ)
}

/// Reverses every edge of a graph, giving each node's sorted, duplicate-free
/// list of incoming neighbours.
#[verifier::loop_isolation(false)]
pub fn rev_graph(graph: &Vec<Vec<usize>>) -> (r: Vec<Vec<usize>>)
    requires
        graph_in_bounds(graph_view(graph@)),
    ensures
        r@.len() == graph@.len(),
        graph_inverse(graph_view(graph@), graph_view(r@)),
        graph_in_bounds(graph_view(r@)),
        forall|v: int| 0 <= v < r@.len() ==> strictly_increasing(#[trigger] graph_view(r@)[v]),
{
    let n = graph.len();
    let ghost g = graph_view(graph@);
    let mut r: Vec<Vec<usize>> = Vec::new();
    let mut v: usize = 0;
    while v < n
        invariant
            v <= n,
            r@.len() == v,
            forall|w: usize, u: usize|
                w < v && u < n ==> (#[trigger] graph_view(r@)[w as int].contains(u)
                    <==> #[trigger] g[u as int].contains(w)),
            forall|w: int, x: int|
                0 <= w < v && 0 <= x < graph_view(r@)[w].len() ==> #[trigger] graph_view(
                    r@,
                )[w][x] < n,
            forall|w: int| 0 <= w < v ==> strictly_increasing(#[trigger] graph_view(r@)[w]),
        decreases n - v,
    {
        let mut row: Vec<usize> = Vec::new();
        let mut u: usize = 0;
        while u < n
            invariant
                u <= n,
                forall|x: usize|
                    x < n ==> (#[trigger] row@.contains(x) <==> (x < u && #[trigger] g[
                    x as int].contains(v))),
                forall|x: int| 0 <= x < row@.len() ==> #[trigger] row@[x] < u,
                strictly_increasing(row@),
            decreases n - u,
        {
            if contains_usize(&graph[u], v) {
                row.push(u);
            }
            u = u + 1;
        }
        let ghost old_r = r@;
        r.push(row);
        proof {
            assert(graph_view(r@) =~= graph_view(old_r).push(r@.last()@));
        }
        v = v + 1;
    }
    r
}

} // verus!
