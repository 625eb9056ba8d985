//! SSA phi-node placement.
//!
//! Per variable, the blocks needing a phi are the iterated dominance
//! frontier of its definition blocks: seed a worklist with the definitions,
//! and mark each frontier block of a worklist block at most once.  A placed
//! phi's operand sources are the variable's reaching-definition origins at
//! its block.

use vstd::prelude::*;

use crate::block::blocks_view;
use crate::cfg::{contains_usize, graph_in_bounds, graph_view};
use crate::dom::{count_true, lemma_count_true_bounds, lemma_count_true_update};
use crate::error::AnalysisError;
use crate::ir::{Code, CodeView};
use crate::live_variables::names_set;
use crate::reaching::{
    block_defs, clone_ids, ids_set, rd_find, rd_has, rd_inv, rd_model, lemma_rd_entry_value,
    lemma_rd_fresh_push, lemma_rd_set_entry, get_block_defs, ReachingDefs,
};

verus! {

broadcast use vstd::seq_lib::lemma_seq_contains_after_push;

/// The definition table of a function: each variable, mapped to the set of
/// blocks that define it.
pub open spec fn all_defs(bs: Seq<Seq<CodeView>>) -> Map<Seq<char>, Set<usize>> {
    Map::new(
        |k: Seq<char>| exists|b: int| 0 <= b < bs.len() && #[trigger] block_defs(bs[b]).contains(k),
        |k: Seq<char>| Set::new(|x: usize| x < bs.len() && block_defs(bs[x as int]).contains(k)),
    )
}

/// Collects, for every variable, the set of blocks that define it.
#[verifier::loop_isolation(false)]
#[verifier::rlimit(60)]
pub fn get_defs(blocks: &Vec<Vec<Code>>) -> (r: Vec<(String, Vec<usize>)>)
    ensures
        rd_inv(r@),
        rd_model(r@) == all_defs(blocks_view(blocks@)),
        forall|i: int, x: int|
            0 <= i < r@.len() && 0 <= x < r@[i].1@.len() ==> #[trigger] r@[i].1@[x]
                < blocks@.len(),
{
    let n = blocks.len();
    let ghost bs = blocks_view(blocks@);
    let mut acc: Vec<(String, Vec<usize>)> = Vec::new();
    proof {
        assert(rd_model(acc@).dom() =~= Set::<Seq<char>>::empty());
    }
    let mut b: usize = 0;
    while b < n
        invariant
            b <= n,
            bs == blocks_view(blocks@),
            rd_inv(acc@),
            forall|i: int, x: int|
                0 <= i < acc@.len() && 0 <= x < acc@[i].1@.len() ==> #[trigger] acc@[i].1@[x] < b,
            rd_model(acc@) == Map::<Seq<char>, Set<usize>>::new(
                |k: Seq<char>|
                    exists|b2: int| 0 <= b2 < b && #[trigger] block_defs(bs[b2]).contains(k),
                |k: Seq<char>| Set::new(|x: usize| x < b && block_defs(bs[x as int]).contains(k)),
            ),
        decreases n - b,
    {
        let dl = get_block_defs(&blocks[b]);
        proof {
            assert(names_set(dl@) == block_defs(bs[b as int])) by {
                assert(bs[b as int] == crate::ir::codes_view(blocks@[b as int]@));
            }
            assert(names_set(dl@.take(0int)).is_empty()) by {
                assert(names_set(dl@.take(0int)) =~= Set::<Seq<char>>::empty());
            }
            assert(rd_model(acc@) =~= Map::<Seq<char>, Set<usize>>::new(
                |k: Seq<char>|
                    (exists|b2: int| 0 <= b2 < b && #[trigger] block_defs(bs[b2]).contains(k))
                        || names_set(dl@.take(0int)).contains(k),
                |k: Seq<char>|
                    Set::new(
                        |x: usize|
                            (x < b && block_defs(bs[x as int]).contains(k)) || (x == b
                                && names_set(dl@.take(0int)).contains(k)),
                    ),
            )) by {
                assert forall|x: Seq<char>| #[trigger] rd_model(acc@).dom().contains(x) implies
                    rd_model(acc@)[x] =~= Set::new(
                    |y: usize|
                        (y < b && block_defs(bs[y as int]).contains(x)) || (y == b && names_set(
                            dl@.take(0int),
                        ).contains(x)),
                ) by {}
            }
        }
        let mut j: usize = 0;
        while j < dl.len()
            invariant
                j <= dl@.len(),
                b < n,
                bs == blocks_view(blocks@),
                names_set(dl@) == block_defs(bs[b as int]),
                rd_inv(acc@),
                forall|i: int, x: int|
                    0 <= i < acc@.len() && 0 <= x < acc@[i].1@.len() ==> #[trigger] acc@[i].1@[x]
                        <= b,
                rd_model(acc@) == Map::<Seq<char>, Set<usize>>::new(
                    |k: Seq<char>|
                        (exists|b2: int| 0 <= b2 < b && #[trigger] block_defs(bs[b2]).contains(k))
                            || names_set(dl@.take(j as int)).contains(k),
                    |k: Seq<char>|
                        Set::new(
                            |x: usize|
                                (x < b && block_defs(bs[x as int]).contains(k)) || (x == b
                                    && names_set(dl@.take(j as int)).contains(k)),
                        ),
                ),
            decreases dl@.len() - j,
        {
            let ghost k = dl@[j as int]@;
            let ghost target_j1 = Map::<Seq<char>, Set<usize>>::new(
                |k2: Seq<char>|
                    (exists|b2: int| 0 <= b2 < b && #[trigger] block_defs(bs[b2]).contains(k2))
                        || names_set(dl@.take(j + 1)).contains(k2),
                |k2: Seq<char>|
                    Set::new(
                        |x: usize|
                            (x < b && block_defs(bs[x as int]).contains(k2)) || (x == b
                                && names_set(dl@.take(j + 1)).contains(k2)),
                    ),
            );
            proof {
                assert forall|x: Seq<char>| true implies (#[trigger] names_set(
                    dl@.take(j + 1),
                ).contains(x) == (names_set(dl@.take(j as int)).contains(x) || x == k)) by {
                    assert(dl@.take(j + 1) =~= dl@.take(j as int).push(dl@[j as int]));
                    if names_set(dl@.take(j + 1)).contains(x) {
                        let t = choose|t: int|
                            0 <= t < dl@.take(j + 1).len() && (#[trigger] dl@.take(j + 1)[t])@
                                == x;
                        if t < j {
                            assert(dl@.take(j as int)[t]@ == x);
                        } else {
                            assert(dl@[j as int]@ == x);
                        }
                    }
                    if names_set(dl@.take(j as int)).contains(x) {
                        let t = choose|t: int|
                            0 <= t < dl@.take(j as int).len() && (#[trigger] dl@.take(
                                j as int,
                            )[t])@ == x;
                        assert(dl@.take(j + 1)[t]@ == x);
                    }
                    if x == k {
                        assert(dl@.take(j + 1)[j as int]@ == x);
                    }
                }
            }
            match rd_find(&acc, &dl[j]) {
                Option::Some(idx) => {
                    proof {
                        lemma_rd_entry_value(acc@, idx as int);
                    }
                    if !contains_usize(&acc[idx].1, b) {
                        let mut new_ids = clone_ids(&acc[idx].1);
                        new_ids.push(b);
                        let ghost old_acc = acc@;
                        let new_key = dl[j].clone();
                        acc[idx] = (new_key, new_ids);
                        proof {
                            lemma_rd_set_entry(old_acc, idx as int, acc@[idx as int]);
                            assert(ids_set(acc@[idx as int].1@) =~= ids_set(
                                old_acc[idx as int].1@,
                            ).insert(b));
                            assert(rd_model(acc@) =~= target_j1) by {
                                assert forall|x: Seq<char>| #[trigger] rd_model(
                                    acc@,
                                ).dom().contains(x) implies rd_model(acc@)[x] == target_j1[x] by {
                                    if x == k {
                                        assert(rd_model(acc@)[x] =~= target_j1[x]);
                                    } else {
                                        assert(rd_model(acc@)[x] == rd_model(old_acc)[x]);
                                        assert(rd_model(acc@)[x] =~= target_j1[x]);
                                    }
                                }
                            }
                        }
                    } else {
                        proof {
                            assert(rd_model(acc@).dom().contains(k)) by {
                                assert(acc@[idx as int].0@ == k);
                                assert(rd_has(acc@, k));
                            }
                            assert(rd_model(acc@)[k].contains(b)) by {
                                assert(ids_set(acc@[idx as int].1@).contains(b));
                            }
                            assert(rd_model(acc@) =~= target_j1) by {
                                assert forall|x: Seq<char>| #[trigger] rd_model(
                                    acc@,
                                ).dom().contains(x) implies rd_model(acc@)[x] == target_j1[x] by {
                                    assert(rd_model(acc@)[x] =~= target_j1[x]);
                                }
                            }
                        }
                    }
                },
                Option::None => {
                    let mut ids0: Vec<usize> = Vec::new();
                    ids0.push(b);
                    let ghost old_acc = acc@;
                    let new_key = dl[j].clone();
                    acc.push((new_key, ids0));
                    proof {
                        assert(acc@.last().0@ == k);
                        assert(!rd_has(old_acc, k));
                        assert(!rd_model(old_acc).dom().contains(k));
                        assert(!(exists|b2: int|
                            0 <= b2 < b && #[trigger] block_defs(bs[b2]).contains(k)));
                        assert(!names_set(dl@.take(j as int)).contains(k));
                        lemma_rd_fresh_push(old_acc, acc@.last());
                        assert(rd_model(acc@) =~= target_j1) by {
                            assert forall|x: Seq<char>| #[trigger] rd_model(acc@).dom().contains(
                                x,
                            ) implies rd_model(acc@)[x] == target_j1[x] by {
                                if x == k {
                                    assert(rd_model(acc@)[x] == ids_set(acc@.last().1@));
                                    assert(ids_set(acc@.last().1@) =~= target_j1[x]);
                                } else {
                                    assert(rd_model(acc@)[x] == rd_model(old_acc)[x]);
                                    assert(rd_model(acc@)[x] =~= target_j1[x]);
                                }
                            }
                        }
                    }
                },
            }
            j = j + 1;
        }
        proof {
            assert(dl@.take(dl@.len() as int) =~= dl@);
            assert(rd_model(acc@) =~= Map::<Seq<char>, Set<usize>>::new(
                |k: Seq<char>|
                    exists|b2: int| 0 <= b2 < b + 1 && #[trigger] block_defs(bs[b2]).contains(k),
                |k: Seq<char>|
                    Set::new(|x: usize| x < b + 1 && block_defs(bs[x as int]).contains(k)),
            )) by {
                assert forall|x: Seq<char>| #[trigger] rd_model(acc@).dom().contains(x) implies
                    rd_model(acc@)[x] =~= Set::new(
                    |y: usize| y < b + 1 && block_defs(bs[y as int]).contains(x),
                ) by {}
                assert forall|x: Seq<char>| true implies (#[trigger] rd_model(acc@).dom().contains(
                    x,
                ) == (exists|b2: int|
                    0 <= b2 < b + 1 && #[trigger] block_defs(bs[b2]).contains(x))) by {
                    if rd_model(acc@).dom().contains(x) {
                        if names_set(dl@).contains(x) {
                            assert(block_defs(bs[b as int]).contains(x));
                        }
                    }
                    if exists|b2: int|
                        0 <= b2 < b + 1 && #[trigger] block_defs(bs[b2]).contains(x) {
                        let b2 = choose|b2: int|
                            0 <= b2 < b + 1 && #[trigger] block_defs(bs[b2]).contains(x);
                        if b2 == b {
                            assert(names_set(dl@).contains(x));
                        }
                    }
                }
            }
        }
        b = b + 1;
    }
    proof {
        assert(rd_model(acc@) =~= all_defs(bs)) by {
            assert forall|x: Seq<char>| #[trigger] rd_model(acc@).dom().contains(x) implies
                rd_model(acc@)[x] =~= all_defs(bs)[x] by {}
        }
    }
    acc
}

/// Membership in the iterated dominance frontier of a definition set: the
/// block stands in every set that is closed under taking frontiers of
/// definition blocks and of its own members.
pub open spec fn closed_under(dv: Set<usize>, dfv: Seq<Seq<usize>>, s: Set<usize>) -> bool {
    forall|x: usize, t: int|
        x < dfv.len() && (dv.contains(x) || s.contains(x)) && 0 <= t < dfv[x as int].len()
            ==> s.contains(#[trigger] dfv[x as int][t])
}

/// True when every closed set holds `b`.
pub open spec fn in_closure(dv: Set<usize>, dfv: Seq<Seq<usize>>, b: usize) -> bool {
    forall|s: Set<usize>| #[trigger] closed_under(dv, dfv, s) ==> s.contains(b)
}

/// Places the phi-nodes of every variable, with their operand sources.
///
/// `defs` is the definition table of [`get_defs`]; `df` the dominance
/// frontier; `reaching_in` the per-block IN table of [`ReachingDefs`] run by
/// [`crate::df::find`] over the same blocks and graph.  For each variable, a
/// phi is placed at exactly the iterated dominance frontier of its
/// definition blocks — the worklist marks each block at most once per
/// variable, which bounds the work — and records the variable's
/// reaching-definition origin blocks there.  Fails, with
/// `MissingReachingDef`, exactly when some such block has no reaching
/// definition of its phi's variable, which signals an inconsistent graph
/// upstream.
#[verifier::loop_isolation(false)]
#[verifier::rlimit(100)]
pub fn place_phi_nodes(
    defs: &Vec<(String, Vec<usize>)>,
    df: &Vec<Vec<usize>>,
    reaching_in: &Vec<Vec<(String, Vec<usize>)>>,
) -> (r: Result<Vec<Vec<(String, Vec<usize>)>>, AnalysisError>)
    requires
        reaching_in@.len() == df@.len(),
        graph_in_bounds(graph_view(df@)),
        forall|b: int| 0 <= b < reaching_in@.len() ==> rd_inv((#[trigger] reaching_in@[b])@),
        rd_inv(defs@),
        forall|i: int, x: int|
            0 <= i < defs@.len() && 0 <= x < defs@[i].1@.len() ==> #[trigger] defs@[i].1@[x]
                < df@.len(),
    ensures
        match r {
            Result::Ok(phis) => {
                &&& phis@.len() == df@.len()
                &&& forall|b: int| 0 <= b < phis@.len() ==> rd_inv(#[trigger] phis@[b]@)
                &&& forall|b: int, k: Seq<char>|
                    0 <= b < phis@.len() && #[trigger] rd_has(phis@[b]@, k) ==> rd_model(
                        defs@,
                    ).dom().contains(k)
                &&& forall|b: usize, k: Seq<char>|
                    b < phis@.len() && rd_model(defs@).dom().contains(k) ==> (#[trigger] rd_has(
                        phis@[b as int]@,
                        k,
                    ) <==> in_closure(rd_model(defs@)[k], graph_view(df@), b))
                &&& forall|b: int, k: Seq<char>|
                    0 <= b < phis@.len() && #[trigger] rd_has(phis@[b]@, k) ==> rd_model(
                        reaching_in@[b]@,
                    ).dom().contains(k) && rd_model(phis@[b]@)[k] == rd_model(
                        reaching_in@[b]@,
                    )[k]
            },
            Result::Err(e) => {
                &&& e matches AnalysisError::MissingReachingDef { variable }
                &&& (e matches AnalysisError::MissingReachingDef { variable } ==> rd_model(
                    defs@,
                ).dom().contains(variable@) && exists|f: usize|
                    f < df@.len() && #[trigger] in_closure(
                        rd_model(defs@)[variable@],
                        graph_view(df@),
                        f,
                    ) && !rd_model(reaching_in@[f as int]@).dom().contains(variable@))
            },
        },
        (r is Err) <==> exists|k: Seq<char>, f: usize|
            rd_model(defs@).dom().contains(k) && f < df@.len() && #[trigger] in_closure(
                rd_model(defs@)[k],
                graph_view(df@),
                f,
            ) && !rd_model(reaching_in@[f as int]@).dom().contains(k),
{
    let n = df.len();
    let ghost dfv = graph_view(df@);
    let ghost dm = rd_model(defs@);
    let mut phis: Vec<Vec<(String, Vec<usize>)>> = Vec::new();
    let mut b0: usize = 0;
    while b0 < n
        invariant
            b0 <= n,
            phis@.len() == b0,
            forall|b: int| 0 <= b < b0 ==> (#[trigger] phis@[b]@).len() == 0,
        decreases n - b0,
    {
        phis.push(Vec::new());
        b0 = b0 + 1;
    }
    let mut vi: usize = 0;
    while vi < defs.len()
        invariant
            vi <= defs@.len(),
            phis@.len() == n,
            forall|b: int| 0 <= b < n ==> rd_inv(#[trigger] phis@[b]@),
            forall|b: int, k: Seq<char>|
                0 <= b < n && #[trigger] rd_has(phis@[b]@, k) ==> exists|t: int|
                    0 <= t < vi && (#[trigger] defs@[t]).0@ == k,
            forall|t: int, b: usize|
                0 <= t < vi && b < n ==> (#[trigger] rd_has(
                    phis@[b as int]@,
                    (#[trigger] defs@[t]).0@,
                ) <==> in_closure(dm[defs@[t].0@], dfv, b)),
            forall|b: int, k: Seq<char>|
                0 <= b < n && #[trigger] rd_has(phis@[b]@, k) ==> rd_model(
                    reaching_in@[b]@,
                ).dom().contains(k) && rd_model(phis@[b]@)[k] == rd_model(reaching_in@[b]@)[k],
        decreases defs@.len() - vi,
    {
        let ghost vk = defs@[vi as int].0@;
        let ghost dv = ids_set(defs@[vi as int].1@);
        proof {
            lemma_rd_entry_value(defs@, vi as int);
            assert(dm.dom().contains(vk));
            assert(dm[vk] == dv);
            assert forall|b: int| 0 <= b < n implies !rd_has(#[trigger] phis@[b]@, vk) by {
                if rd_has(phis@[b]@, vk) {
                    let t = choose|t: int| 0 <= t < vi && (#[trigger] defs@[t]).0@ == vk;
                }
            }
        }
        let dvec = &defs[vi].1;
        let mut added: Vec<bool> = Vec::new();
        let mut y0: usize = 0;
        while y0 < n
            invariant
                y0 <= n,
                added@.len() == y0,
                forall|y: int| 0 <= y < y0 ==> !(#[trigger] added@[y]),
            decreases n - y0,
        {
            added.push(false);
            y0 = y0 + 1;
        }
        let mut work: Vec<usize> = Vec::new();
        let mut t0: usize = 0;
        while t0 < dvec.len()
            invariant
                t0 <= dvec@.len(),
                dvec@ == defs@[vi as int].1@,
                added@.len() == n,
                forall|i: int| 0 <= i < work@.len() ==> #[trigger] work@[i] < n,
                forall|i: int| 0 <= i < work@.len() ==> added@[(#[trigger] work@[i]) as int],
                forall|y: usize|
                    y < n && #[trigger] added@[y as int] ==> work@.contains(y),
                forall|y: usize|
                    y < n ==> ((#[trigger] added@[y as int]) <==> ids_set(
                        dvec@.take(t0 as int),
                    ).contains(y)),
            decreases dvec@.len() - t0,
        {
            let x = dvec[t0];
            proof {
                assert(defs@[vi as int].1@[t0 as int] < n);
                assert(dvec@.take(t0 + 1) =~= dvec@.take(t0 as int).push(dvec@[t0 as int]));
                assert forall|y: usize| true implies (#[trigger] ids_set(
                    dvec@.take(t0 + 1),
                ).contains(y) == (ids_set(dvec@.take(t0 as int)).contains(y) || y == x)) by {
                    assert(dvec@.take(t0 as int).push(dvec@[t0 as int]).contains(y) == (dvec@.take(
                        t0 as int,
                    ).contains(y) || y == x));
                }
            }
            if !added[x] {
                added[x] = true;
                work.push(x);
            }
            t0 = t0 + 1;
        }
        proof {
            assert(dvec@.take(dvec@.len() as int) =~= dvec@);
            assert forall|y: usize| y < n implies ((#[trigger] added@[y as int]) <==> dv.contains(
                y,
            )) by {}
            lemma_count_true_bounds(added@);
        }
        while work.len() > 0
            invariant
                added@.len() == n,
                phis@.len() == n,
                forall|b: int| 0 <= b < n ==> rd_inv(#[trigger] phis@[b]@),
                forall|i: int| 0 <= i < work@.len() ==> #[trigger] work@[i] < n,
                forall|i: int| 0 <= i < work@.len() ==> added@[(#[trigger] work@[i]) as int],
                forall|y: usize|
                    y < n ==> ((#[trigger] added@[y as int]) <==> (dv.contains(y) || rd_has(
                        phis@[y as int]@,
                        vk,
                    ))),
                forall|s: Set<usize>, y: usize|
                    #[trigger] closed_under(dv, dfv, s) && y < n && #[trigger] rd_has(
                        phis@[y as int]@,
                        vk,
                    ) ==> s.contains(y),
                forall|s: Set<usize>, y: int|
                    #[trigger] closed_under(dv, dfv, s) && 0 <= y < n && #[trigger] added@[y]
                        ==> dv.contains(y as usize) || s.contains(y as usize),
                forall|y: usize, t: int|
                    y < n && added@[y as int] && !work@.contains(y) && 0 <= t < dfv[y as int].len()
                        ==> rd_has(phis@[(#[trigger] dfv[y as int][t]) as int]@, vk),
                forall|b: int, k: Seq<char>|
                    0 <= b < n && #[trigger] rd_has(phis@[b]@, k) ==> ((exists|t: int|
                        0 <= t < vi && (#[trigger] defs@[t]).0@ == k) || k == vk),
                forall|t: int, b: usize|
                    0 <= t < vi && b < n ==> (#[trigger] rd_has(
                        phis@[b as int]@,
                        (#[trigger] defs@[t]).0@,
                    ) <==> in_closure(dm[defs@[t].0@], dfv, b)),
                forall|b: int, k: Seq<char>|
                    0 <= b < n && #[trigger] rd_has(phis@[b]@, k) ==> rd_model(
                        reaching_in@[b]@,
                    ).dom().contains(k) && rd_model(phis@[b]@)[k] == rd_model(
                        reaching_in@[b]@,
                    )[k],
            decreases n - count_true(added@), work@.len(),
        {
            proof {
                lemma_count_true_bounds(added@);
            }
            let ghost count_start = count_true(added@);
            let ghost len_start = work@.len();
            let ghost pre_work = work@;
            let x = match work.pop() {
                Option::Some(x) => x,
                Option::None => {
                    proof {
                        assert(false);
                    }
                    0
                },
            };
            proof {
                assert(pre_work[pre_work.len() - 1] == x);
                assert(added@[x as int]);
                assert forall|y: usize| pre_work.contains(y) && y != x implies
                    #[trigger] work@.contains(y) by {
                    let i = choose|i: int| 0 <= i < pre_work.len() && pre_work[i] == y;
                    assert(i < pre_work.len() - 1);
                    assert(work@[i] == y);
                }
            }
            let dfl = df[x].len();
            let mut t: usize = 0;
            while t < dfl
                invariant
                    t <= dfl,
                    x < n,
                    added@[x as int],
                    dfl == dfv[x as int].len(),
                    added@.len() == n,
                    phis@.len() == n,
                    forall|b: int| 0 <= b < n ==> rd_inv(#[trigger] phis@[b]@),
                    forall|i: int| 0 <= i < work@.len() ==> #[trigger] work@[i] < n,
                    forall|i: int| 0 <= i < work@.len() ==> added@[(#[trigger] work@[i]) as int],
                    forall|y: usize|
                        y < n ==> ((#[trigger] added@[y as int]) <==> (dv.contains(y) || rd_has(
                            phis@[y as int]@,
                            vk,
                        ))),
                    forall|s: Set<usize>, y: usize|
                        #[trigger] closed_under(dv, dfv, s) && y < n && #[trigger] rd_has(
                            phis@[y as int]@,
                            vk,
                        ) ==> s.contains(y),
                    forall|s: Set<usize>, y: int|
                        #[trigger] closed_under(dv, dfv, s) && 0 <= y < n && #[trigger] added@[y]
                            ==> dv.contains(y as usize) || s.contains(y as usize),
                    forall|y: usize, t2: int|
                        y < n && y != x && added@[y as int] && !work@.contains(y) && 0 <= t2 < dfv[
                        y as int].len() ==> rd_has(
                            phis@[(#[trigger] dfv[y as int][t2]) as int]@,
                            vk,
                        ),
                    forall|t2: int|
                        0 <= t2 < t ==> rd_has(phis@[(#[trigger] dfv[x as int][t2]) as int]@, vk),
                    forall|b: int, k: Seq<char>|
                        0 <= b < n && #[trigger] rd_has(phis@[b]@, k) ==> ((exists|t2: int|
                            0 <= t2 < vi && (#[trigger] defs@[t2]).0@ == k) || k == vk),
                    forall|t2: int, b: usize|
                        0 <= t2 < vi && b < n ==> (#[trigger] rd_has(
                            phis@[b as int]@,
                            (#[trigger] defs@[t2]).0@,
                        ) <==> in_closure(dm[defs@[t2].0@], dfv, b)),
                    forall|b: int, k: Seq<char>|
                        0 <= b < n && #[trigger] rd_has(phis@[b]@, k) ==> rd_model(
                            reaching_in@[b]@,
                        ).dom().contains(k) && rd_model(phis@[b]@)[k] == rd_model(
                            reaching_in@[b]@,
                        )[k],
                    count_true(added@) == count_start + (work@.len() - (len_start - 1)),
                    count_true(added@) >= count_start,
                decreases dfl - t,
            {
                let f = df[x][t];
                proof {
                    assert(dfv[x as int][t as int] < n);
                }
                let var_ref = &defs[vi].0;
                let already = match rd_find(&phis[f], var_ref) {
                    Option::Some(_) => true,
                    Option::None => false,
                };
                if !already {
                    match rd_find(&reaching_in[f], var_ref) {
                        Option::None => {
                            proof {
                                assert(!rd_has(reaching_in@[f as int]@, vk));
                                assert(!rd_model(reaching_in@[f as int]@).dom().contains(vk));
                                assert forall|s: Set<usize>| #[trigger] closed_under(
                                    dv,
                                    dfv,
                                    s,
                                ) implies s.contains(f) by {
                                    assert(added@[x as int]);
                                    assert(dv.contains(x) || s.contains(x));
                                    assert(s.contains(dfv[x as int][t as int]));
                                }
                                assert(in_closure(dm[vk], dfv, f));
                            }
                            return Result::Err(
                                AnalysisError::MissingReachingDef { variable: var_ref.clone() },
                            );
                        },
                        Option::Some(si) => {
                            proof {
                                assert(rd_inv(reaching_in@[f as int]@));
                                lemma_rd_entry_value(reaching_in@[f as int]@, si as int);
                                assert(reaching_in@[f as int]@[si as int].0@ == vk);
                            }
                            let ids = clone_ids(&reaching_in[f][si].1);
                            let ghost old_row = phis@[f as int]@;
                            let ghost old_phis = phis@;
                            let new_key = var_ref.clone();
                            phis[f].push((new_key, ids));
                            proof {
                                assert(phis@[f as int]@ == old_row.push(
                                    phis@[f as int]@.last(),
                                ));
                                assert(phis@[f as int]@.last().0@ == vk);
                                assert(!rd_has(old_row, vk)) by {
                                    if rd_has(old_row, vk) {
                                    }
                                }
                                lemma_rd_fresh_push(old_row, phis@[f as int]@.last());
                                assert(rd_model(phis@[f as int]@) == rd_model(old_row).insert(
                                    vk,
                                    ids_set(phis@[f as int]@.last().1@),
                                ));
                                assert(ids_set(phis@[f as int]@.last().1@) == rd_model(
                                    reaching_in@[f as int]@,
                                )[vk]);
                                assert forall|b: int|
                                    0 <= b < n && b != f as int implies phis@[b] == old_phis[b] by {}
                                assert forall|b: int, k: Seq<char>| 0 <= b < n implies (
                                #[trigger] rd_has(phis@[b]@, k) == (rd_has(old_phis[b]@, k) || (b
                                    == f as int && k == vk))) by {
                                    if b == f as int {
                                        assert(rd_has(phis@[b]@, k) == rd_model(
                                            phis@[b]@,
                                        ).dom().contains(k));
                                        assert(rd_model(phis@[b]@).dom().contains(k) == (rd_model(
                                            old_row,
                                        ).dom().contains(k) || k == vk));
                                        assert(rd_model(old_row).dom().contains(k) == rd_has(
                                            old_row,
                                            k,
                                        ));
                                    }
                                }
                                assert forall|b: int, k: Seq<char>|
                                    0 <= b < n && #[trigger] rd_has(phis@[b]@, k) && !(b
                                    == f as int && k == vk) implies rd_model(phis@[b]@)[k]
                                    == rd_model(old_phis[b]@)[k] by {
                                    if b == f as int {
                                        assert(rd_model(phis@[b]@)[k] == rd_model(old_row).insert(
                                            vk,
                                            ids_set(phis@[f as int]@.last().1@),
                                        )[k]);
                                    }
                                }
                            }
                        },
                    }
                }
                if !added[f] {
                    let ghost pre_added = added@;
                    added[f] = true;
                    work.push(f);
                    proof {
                        lemma_count_true_update(pre_added, f as int);
                    }
                }
                t = t + 1;
            }
            proof {
                lemma_count_true_bounds(added@);
            }
        }
        proof {
            // the marks of this variable are exactly the closure
            let mset = Set::new(|y: usize| y < n && rd_has(phis@[y as int]@, vk));
            assert(closed_under(dv, dfv, mset)) by {
                assert forall|y: usize, t: int|
                    y < n && (dv.contains(y) || mset.contains(y)) && 0 <= t < dfv[y as int].len()
                    implies mset.contains(#[trigger] dfv[y as int][t]) by {
                    assert(added@[y as int]);
                    assert(rd_has(phis@[(dfv[y as int][t]) as int]@, vk));
                    assert(dfv[y as int][t] < n);
                }
            }
            assert forall|b: usize| b < n implies (#[trigger] rd_has(phis@[b as int]@, vk)
                <==> in_closure(dm[vk], dfv, b)) by {
                if rd_has(phis@[b as int]@, vk) {
                    assert forall|s: Set<usize>| #[trigger] closed_under(dv, dfv, s) implies
                        s.contains(b) by {}
                }
                if in_closure(dm[vk], dfv, b) {
                    assert(mset.contains(b));
                }
            }
            assert forall|t2: int, b: usize| 0 <= t2 < vi + 1 && b < n implies (#[trigger] rd_has(
                phis@[b as int]@,
                (#[trigger] defs@[t2]).0@,
            ) <==> in_closure(dm[defs@[t2].0@], dfv, b)) by {
                if t2 == vi {
                    assert(defs@[t2].0@ == vk);
                }
            }
        }
        vi = vi + 1;
    }
    proof {
        assert forall|b: usize, k: Seq<char>| b < n && dm.dom().contains(k) implies (
        #[trigger] rd_has(phis@[b as int]@, k) <==> in_closure(dm[k], dfv, b)) by {
            assert(rd_has(defs@, k));
            let t = choose|t: int| 0 <= t < defs@.len() && (#[trigger] defs@[t]).0@ == k;
        }
        assert forall|b: int, k: Seq<char>| 0 <= b < n && #[trigger] rd_has(phis@[b]@, k) implies
            dm.dom().contains(k) by {
            let t = choose|t: int| 0 <= t < defs@.len() && (#[trigger] defs@[t]).0@ == k;
            assert(rd_has(defs@, k));
        }
        // success is owed: nothing in the closure of any variable lacks a
        // reaching definition, else a phi there would have had no source
        assert(!(exists|k: Seq<char>, f: usize|
            dm.dom().contains(k) && f < n && #[trigger] in_closure(dm[k], dfv, f) && !rd_model(
                reaching_in@[f as int]@,
            ).dom().contains(k))) by {
            if exists|k: Seq<char>, f: usize|
                dm.dom().contains(k) && f < n && #[trigger] in_closure(dm[k], dfv, f) && !rd_model(
                    reaching_in@[f as int]@,
                ).dom().contains(k) {
                let (k, f) = choose|k: Seq<char>, f: usize|
                    dm.dom().contains(k) && f < n && #[trigger] in_closure(dm[k], dfv, f)
                        && !rd_model(reaching_in@[f as int]@).dom().contains(k);
                assert(rd_has(phis@[f as int]@, k));
            }
        }
    }
    Result::Ok(phis)
}

} // verus!
