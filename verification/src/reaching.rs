//! Reaching-definitions analysis: a forward dataflow problem mapping each
//! variable to the set of blocks whose definition of it may still be current.
//!
//! The state is an association list from variable names to origin-block
//! sets; its model is a finite map.  Merging takes the per-key union; a
//! block's transfer replaces the set of every variable the block defines by
//! that block alone.

use vstd::prelude::*;

use crate::df::DataFlowAnalysis;
use crate::ir::{codes_view, defined_var, Code, CodeView, Instruction};
use crate::live_variables::names_set;

verus! {

broadcast use vstd::seq_lib::lemma_seq_contains_after_push;

/// The set of block indices a list stands for.
pub open spec fn ids_set(s: Seq<usize>) -> Set<usize> {
    Set::new(|x: usize| s.contains(x))
}

/// The one-block set.
pub open spec fn just(b: int) -> Set<usize> {
    Set::new(|x: usize| x as int == b)
}

/// True when the association list holds key `k`.
pub open spec fn rd_has(m: Seq<(String, Vec<usize>)>, k: Seq<char>) -> bool {
    exists|i: int| 0 <= i < m.len() && (#[trigger] m[i]).0@ == k
}

/// The position of key `k` in the association list.
pub open spec fn rd_index(m: Seq<(String, Vec<usize>)>, k: Seq<char>) -> int {
    choose|i: int| 0 <= i < m.len() && (#[trigger] m[i]).0@ == k
}

/// The finite map an association list stands for.
pub open spec fn rd_model(m: Seq<(String, Vec<usize>)>) -> Map<Seq<char>, Set<usize>> {
    Map::new(|k: Seq<char>| rd_has(m, k), |k: Seq<char>| ids_set(m[rd_index(m, k)].1@))
}

/// Well-formedness: no key twice.
pub open spec fn rd_inv(m: Seq<(String, Vec<usize>)>) -> bool {
    forall|i: int, j: int| 0 <= i < j < m.len() ==> (#[trigger] m[i]).0@ != (#[trigger] m[j]).0@
}

/// The per-key union of two maps; a key of either side is a key of the
/// union, missing sides count as empty.
pub open spec fn map_union(
    m1: Map<Seq<char>, Set<usize>>,
    m2: Map<Seq<char>, Set<usize>>,
) -> Map<Seq<char>, Set<usize>> {
    Map::new(
        |k: Seq<char>| m1.dom().contains(k) || m2.dom().contains(k),
        |k: Seq<char>|
            (if m1.dom().contains(k) {
                m1[k]
            } else {
                Set::empty()
            }).union(
                if m2.dom().contains(k) {
                    m2[k]
                } else {
                    Set::empty()
                },
            ),
    )
}

/// The per-key union of a sequence of maps.
pub open spec fn merge_all(inputs: Seq<Map<Seq<char>, Set<usize>>>) -> Map<Seq<char>, Set<usize>>
    decreases inputs.len(),
{
    if inputs.len() == 0 {
        Map::empty()
    } else {
        map_union(merge_all(inputs.drop_last()), inputs.last())
    }
}

/// The variables a block defines.
pub open spec fn block_defs(items: Seq<CodeView>) -> Set<Seq<char>> {
    Set::new(
        |d: Seq<char>|
            exists|i: int|
                0 <= i < items.len() && defined_var(#[trigger] items[i]) == Option::Some(d),
    )
}

/// The reaching map after a block: every variable the block defines comes
/// from this block alone, every other variable keeps its incoming origins.
pub open spec fn rd_transfer(items: Seq<CodeView>, b: int, m: Map<Seq<char>, Set<usize>>) -> Map<
    Seq<char>,
    Set<usize>,
> {
    Map::new(
        |k: Seq<char>| m.dom().contains(k) || block_defs(items).contains(k),
        |k: Seq<char>|
            if block_defs(items).contains(k) {
                just(b)
            } else {
                m[k]
            },
    )
}

/// The order on reaching maps: keys may only be added and each key's origin
/// set may only grow.
pub open spec fn rd_le(a: Map<Seq<char>, Set<usize>>, b: Map<Seq<char>, Set<usize>>) -> bool {
    &&& a.dom().subset_of(b.dom())
    &&& forall|k: Seq<char>| #[trigger] a.dom().contains(k) ==> a[k].subset_of(b[k])
}

/// The per-key union of pointwise-larger maps is larger.
pub proof fn lemma_map_union_monotone(
    a1: Map<Seq<char>, Set<usize>>,
    a2: Map<Seq<char>, Set<usize>>,
    b1: Map<Seq<char>, Set<usize>>,
    b2: Map<Seq<char>, Set<usize>>,
)
    requires
        rd_le(a1, b1),
        rd_le(a2, b2),
    ensures
        rd_le(map_union(a1, a2), map_union(b1, b2)),
{
    assert forall|k: Seq<char>| #[trigger] map_union(a1, a2).dom().contains(k) implies map_union(
        b1,
        b2,
    ).dom().contains(k) by {}
    assert forall|k: Seq<char>| #[trigger] map_union(a1, a2).dom().contains(k) implies map_union(
        a1,
        a2,
    )[k].subset_of(map_union(b1, b2)[k]) by {
        assert forall|x: usize| #[trigger] map_union(a1, a2)[k].contains(x) implies map_union(
            b1,
            b2,
        )[k].contains(x) by {
            if a1.dom().contains(k) && a1[k].contains(x) {
                assert(b1.dom().contains(k) && b1[k].contains(x));
            } else {
                assert(a2.dom().contains(k) && a2[k].contains(x));
                assert(b2.dom().contains(k) && b2[k].contains(x));
            }
        }
    }
}

/// The per-key union of pointwise-larger map sequences is larger.
pub proof fn lemma_merge_all_monotone(
    a: Seq<Map<Seq<char>, Set<usize>>>,
    b: Seq<Map<Seq<char>, Set<usize>>>,
)
    requires
        a.len() == b.len(),
        forall|i: int| 0 <= i < a.len() ==> rd_le(#[trigger] a[i], b[i]),
    ensures
        rd_le(merge_all(a), merge_all(b)),
    decreases a.len(),
{
    if a.len() == 0 {
        assert(rd_le(Map::empty(), Map::empty()));
    } else {
        assert forall|i: int| 0 <= i < a.drop_last().len() implies rd_le(
            #[trigger] a.drop_last()[i],
            b.drop_last()[i],
        ) by {
            assert(a.drop_last()[i] == a[i] && b.drop_last()[i] == b[i]);
        }
        lemma_merge_all_monotone(a.drop_last(), b.drop_last());
        assert(rd_le(a[a.len() - 1], b[b.len() - 1]));
        lemma_map_union_monotone(
            merge_all(a.drop_last()),
            a.last(),
            merge_all(b.drop_last()),
            b.last(),
        );
    }
}

/// A larger incoming map gives a larger map after the block.
pub proof fn lemma_rd_transfer_monotone(
    items: Seq<CodeView>,
    bid: int,
    a: Map<Seq<char>, Set<usize>>,
    b: Map<Seq<char>, Set<usize>>,
)
    requires
        rd_le(a, b),
    ensures
        rd_le(rd_transfer(items, bid, a), rd_transfer(items, bid, b)),
{
    assert forall|k: Seq<char>| #[trigger] rd_transfer(items, bid, a).dom().contains(k) implies
        rd_transfer(items, bid, b).dom().contains(k) by {}
    assert forall|k: Seq<char>| #[trigger] rd_transfer(items, bid, a).dom().contains(k) implies
        rd_transfer(items, bid, a)[k].subset_of(rd_transfer(items, bid, b)[k]) by {
        if block_defs(items).contains(k) {
            assert(rd_transfer(items, bid, a)[k] == just(bid));
            assert(rd_transfer(items, bid, b)[k] == just(bid));
            assert(just(bid).subset_of(just(bid)));
        } else {
            assert(a.dom().contains(k));
            assert(a[k].subset_of(b[k]));
        }
    }
}

/// Pushing an entry with a fresh key adds exactly that key to the model.
pub proof fn lemma_rd_fresh_push(m: Seq<(String, Vec<usize>)>, e: (String, Vec<usize>))
    requires
        rd_inv(m),
        !rd_has(m, e.0@),
    ensures
        rd_inv(m.push(e)),
        rd_model(m.push(e)) == rd_model(m).insert(e.0@, ids_set(e.1@)),
{
    let m2 = m.push(e);
    assert forall|i: int, j: int| 0 <= i < j < m2.len() implies (#[trigger] m2[i]).0@
        != (#[trigger] m2[j]).0@ by {
        if j == m.len() {
            assert(m2[i] == m[i]);
            if m[i].0@ == e.0@ {
                assert(rd_has(m, e.0@));
            }
        } else {
            assert(m2[i] == m[i] && m2[j] == m[j]);
        }
    }
    assert forall|k: Seq<char>| true implies #[trigger] rd_has(m2, k) == (rd_has(m, k) || k
        == e.0@) by {
        if rd_has(m2, k) {
            let i = choose|i: int| 0 <= i < m2.len() && (#[trigger] m2[i]).0@ == k;
            if i < m.len() {
                assert(m[i].0@ == k);
            }
        }
        if rd_has(m, k) {
            let i = choose|i: int| 0 <= i < m.len() && (#[trigger] m[i]).0@ == k;
            assert(m2[i].0@ == k);
        }
        if k == e.0@ {
            assert(m2[m.len() as int].0@ == k);
        }
    }
    assert(rd_model(m2) =~= rd_model(m).insert(e.0@, ids_set(e.1@))) by {
        assert forall|k: Seq<char>| #[trigger] rd_model(m2).dom().contains(k) implies rd_model(
            m2,
        )[k] == rd_model(m).insert(e.0@, ids_set(e.1@))[k] by {
            let i = rd_index(m2, k);
            assert(0 <= i < m2.len() && m2[i].0@ == k);
            if k == e.0@ {
                assert(i == m.len()) by {
                    if i < m.len() {
                        assert(m[i].0@ == k);
                        assert(rd_has(m, e.0@));
                    }
                }
                assert(m2[i] == e);
            } else {
                assert(i < m.len());
                assert(m2[i] == m[i]);
                assert(rd_has(m, k));
                let i2 = rd_index(m, k);
                assert(0 <= i2 < m.len() && m[i2].0@ == k);
                assert(i2 == i) by {
                    if i2 < i {
                        assert(m[i2].0@ != m[i].0@);
                    } else if i < i2 {
                        assert(m[i].0@ != m[i2].0@);
                    }
                }
            }
        }
    }
}

/// Replacing an entry's list, key kept, updates exactly that key's set.
pub proof fn lemma_rd_set_entry(m: Seq<(String, Vec<usize>)>, i: int, e: (String, Vec<usize>))
    requires
        rd_inv(m),
        0 <= i < m.len(),
        e.0@ == m[i].0@,
    ensures
        rd_inv(m.update(i, e)),
        rd_model(m.update(i, e)) == rd_model(m).insert(e.0@, ids_set(e.1@)),
{
    let m2 = m.update(i, e);
    assert forall|a: int, b: int| 0 <= a < b < m2.len() implies (#[trigger] m2[a]).0@
        != (#[trigger] m2[b]).0@ by {
        assert(m2[a].0@ == m[a].0@);
        assert(m2[b].0@ == m[b].0@);
    }
    assert forall|k: Seq<char>| true implies #[trigger] rd_has(m2, k) == rd_has(m, k) by {
        if rd_has(m2, k) {
            let a = choose|a: int| 0 <= a < m2.len() && (#[trigger] m2[a]).0@ == k;
            assert(m[a].0@ == k);
        }
        if rd_has(m, k) {
            let a = choose|a: int| 0 <= a < m.len() && (#[trigger] m[a]).0@ == k;
            assert(m2[a].0@ == k);
        }
    }
    assert(rd_has(m, e.0@)) by {
        assert(m[i].0@ == e.0@);
    }
    assert(rd_model(m2) =~= rd_model(m).insert(e.0@, ids_set(e.1@))) by {
        assert forall|k: Seq<char>| #[trigger] rd_model(m2).dom().contains(k) implies rd_model(
            m2,
        )[k] == rd_model(m).insert(e.0@, ids_set(e.1@))[k] by {
            let a = rd_index(m2, k);
            assert(0 <= a < m2.len() && m2[a].0@ == k);
            if k == e.0@ {
                assert(a == i) by {
                    if a != i {
                        assert(m2[a].0@ == m[a].0@);
                        assert(m[a].0@ != m[i].0@);
                    }
                }
                assert(m2[a] == e);
            } else {
                assert(a != i);
                assert(m2[a] == m[a]);
                assert(rd_has(m, k));
                let a2 = rd_index(m, k);
                assert(0 <= a2 < m.len() && m[a2].0@ == k);
                assert(a2 == a) by {
                    if a2 < a {
                        assert(m[a2].0@ != m[a].0@);
                    } else if a < a2 {
                        assert(m[a].0@ != m[a2].0@);
                    }
                }
            }
        }
    }
}

/// With no key twice, every entry's list is its key's set in the model.
pub proof fn lemma_rd_entry_value(m: Seq<(String, Vec<usize>)>, i: int)
    requires
        rd_inv(m),
        0 <= i < m.len(),
    ensures
        rd_has(m, m[i].0@),
        rd_model(m)[m[i].0@] == ids_set(m[i].1@),
{
    let k = m[i].0@;
    assert(rd_has(m, k)) by {
        assert(m[i].0@ == k);
    }
    let a = rd_index(m, k);
    assert(0 <= a < m.len() && m[a].0@ == k);
    assert(a == i) by {
        if a < i {
            assert(m[a].0@ != m[i].0@);
        } else if i < a {
            assert(m[i].0@ != m[a].0@);
        }
    }
}

/// A copy of a list of block indices.
pub fn clone_ids(v: &Vec<usize>) -> (r: Vec<usize>)
    ensures
        r@ == v@,
{
    let mut r: Vec<usize> = Vec::new();
    let mut i: usize = 0;
    while i < v.len()
        invariant
            i <= v.len(),
            r@ == v@.take(i as int),
        decreases v.len() - i,
    {
        r.push(v[i]);
        proof {
            assert(r@ =~= v@.take(i + 1));
        }
        i = i + 1;
    }
    proof {
        assert(v@.take(v@.len() as int) =~= v@);
    }
    r
}

/// Appends every index of `src` to `dst`.
pub fn push_all_ids(dst: &mut Vec<usize>, src: &Vec<usize>)
    ensures
        ids_set(final(dst)@) == ids_set(old(dst)@).union(ids_set(src@)),
{
    let mut j: usize = 0;
    while j < src.len()
        invariant
            j <= src.len(),
            ids_set(dst@) == ids_set(old(dst)@).union(ids_set(src@.take(j as int))),
        decreases src.len() - j,
    {
        let ghost before = dst@;
        dst.push(src[j]);
        proof {
            assert(src@.take(j + 1) =~= src@.take(j as int).push(src@[j as int]));
            assert(dst@ == before.push(src@[j as int]));
            assert forall|x: usize| true implies (#[trigger] dst@.contains(x) <==> (before.contains(
                x,
            ) || x == src@[j as int])) by {
                assert(before.push(src@[j as int]).contains(x) <==> (before.contains(x) || x
                    == src@[j as int]));
            }
            assert forall|x: usize| true implies (#[trigger] src@.take(j + 1).contains(x) <==> (
            src@.take(j as int).contains(x) || x == src@[j as int])) by {
                assert(src@.take(j as int).push(src@[j as int]).contains(x) <==> (src@.take(
                    j as int,
                ).contains(x) || x == src@[j as int]));
            }
            assert forall|x: usize| #[trigger] ids_set(dst@).contains(x) implies ids_set(
                old(dst)@,
            ).union(ids_set(src@.take(j + 1))).contains(x) by {
                assert(dst@.contains(x));
                assert(before.contains(x) || x == src@[j as int]);
                if before.contains(x) {
                    assert(ids_set(before).contains(x));
                    assert(ids_set(old(dst)@).union(ids_set(src@.take(j as int))).contains(x));
                } else {
                    assert(src@.take(j + 1).contains(x));
                }
            }
            assert forall|x: usize|
                ids_set(old(dst)@).union(ids_set(src@.take(j + 1))).contains(x) implies
                #[trigger] ids_set(dst@).contains(x) by {
                if ids_set(old(dst)@).contains(x) {
                    assert(ids_set(before).contains(x)) by {
                        assert(ids_set(old(dst)@).union(ids_set(src@.take(j as int))).contains(x));
                    }
                    assert(before.contains(x));
                    assert(dst@.contains(x));
                } else {
                    assert(src@.take(j + 1).contains(x));
                    if src@.take(j as int).contains(x) {
                        assert(ids_set(src@.take(j as int)).contains(x));
                        assert(ids_set(before).contains(x)) by {
                            assert(ids_set(old(dst)@).union(ids_set(src@.take(j as int))).contains(
                                x,
                            ));
                        }
                        assert(before.contains(x));
                    }
                    assert(dst@.contains(x));
                }
            }
            assert(ids_set(dst@) =~= ids_set(old(dst)@).union(ids_set(src@.take(j + 1))));
        }
        j = j + 1;
    }
    proof {
        assert(src@.take(src@.len() as int) =~= src@);
    }
}

/// Whether every index of `a` also stands in `b`.
pub fn ids_subset(a: &Vec<usize>, b: &Vec<usize>) -> (r: bool)
    ensures
        r == ids_set(a@).subset_of(ids_set(b@)),
{
    let mut i: usize = 0;
    while i < a.len()
        invariant
            i <= a.len(),
            forall|j: int| 0 <= j < i ==> ids_set(b@).contains(#[trigger] a@[j]),
        decreases a.len() - i,
    {
        if !crate::cfg::contains_usize(b, a[i]) {
            proof {
                assert(ids_set(a@).contains(a@[i as int]));
            }
            return false;
        }
        i = i + 1;
    }
    proof {
        assert forall|x: usize| #[trigger] ids_set(a@).contains(x) implies ids_set(b@).contains(
            x,
        ) by {
            let j = choose|j: int| 0 <= j < a@.len() && a@[j] == x;
        }
    }
    true
}

/// The position of key `k` in the list, if present.
pub fn rd_find(m: &Vec<(String, Vec<usize>)>, k: &String) -> (r: Option<usize>)
    ensures
        match r {
            Option::Some(i) => i < m@.len() && m@[i as int].0@ == k@,
            Option::None => !rd_has(m@, k@),
        },
{
    let mut i: usize = 0;
    while i < m.len()
        invariant
            i <= m.len(),
            forall|j: int| 0 <= j < i ==> (#[trigger] m@[j]).0@ != k@,
        decreases m.len() - i,
    {
        if m[i].0 == *k {
            return Option::Some(i);
        }
        i = i + 1;
    }
    proof {
        if rd_has(m@, k@) {
            let j = choose|j: int| 0 <= j < m@.len() && (#[trigger] m@[j]).0@ == k@;
        }
    }
    Option::None
}

/// The variables a block defines, with repetitions.
pub fn get_block_defs(block: &Vec<Code>) -> (defs: Vec<String>)
    ensures
        names_set(defs@) == block_defs(codes_view(block@)),
{
    let ghost bv = codes_view(block@);
    let mut defs: Vec<String> = Vec::new();
    let mut i: usize = 0;
    while i < block.len()
        invariant
            i <= block@.len(),
            bv == codes_view(block@),
            names_set(defs@) == block_defs(bv.take(i as int)),
        decreases block.len() - i,
    {
        let ghost before = defs@;
        proof {
            assert(bv[i as int] == block@[i as int]@);
        }
        match &block[i] {
            Code::Instruction(Instruction::Constant { dest, .. }) => {
                defs.push(dest.clone());
            },
            Code::Instruction(Instruction::Value { dest, .. }) => {
                defs.push(dest.clone());
            },
            _ => {},
        }
        proof {
            assert(bv.take(i + 1) =~= bv.take(i as int).push(bv[i as int]));
            assert(names_set(defs@) =~= block_defs(bv.take(i + 1))) by {
                assert forall|x: Seq<char>| #[trigger] names_set(defs@).contains(x) implies
                    block_defs(bv.take(i + 1)).contains(x) by {
                    let j = choose|j: int| 0 <= j < defs@.len() && (#[trigger] defs@[j])@ == x;
                    if j < before.len() {
                        assert(names_set(before).contains(x)) by {
                            assert(before[j]@ == x);
                        }
                        let t = choose|t: int|
                            0 <= t < bv.take(i as int).len() && defined_var(
                                #[trigger] bv.take(i as int)[t],
                            ) == Option::Some(x);
                        assert(defined_var(bv.take(i + 1)[t]) == Option::Some(x));
                    } else {
                        assert(defined_var(bv.take(i + 1)[i as int]) == Option::Some(x));
                    }
                }
                assert forall|x: Seq<char>| block_defs(bv.take(i + 1)).contains(x) implies
                    #[trigger] names_set(defs@).contains(x) by {
                    let t = choose|t: int|
                        0 <= t < bv.take(i + 1).len() && defined_var(#[trigger] bv.take(i + 1)[t])
                            == Option::Some(x);
                    if t < i {
                        assert(defined_var(bv.take(i as int)[t]) == Option::Some(x));
                        assert(names_set(before).contains(x));
                        let j = choose|j: int| 0 <= j < before.len() && (#[trigger] before[j])@ == x;
                        assert(defs@[j]@ == x);
                    } else {
                        assert(defined_var(bv[i as int]) == Option::Some(x));
                        assert(defs@[defs@.len() - 1]@ == x);
                    }
                }
            }
        }
        i = i + 1;
    }
    proof {
        assert(bv.take(bv.len() as int) =~= bv);
    }
    defs
}

/// Adding one association's key to the right side of a per-key union.
proof fn lemma_merge_step(
    m0: Map<Seq<char>, Set<usize>>,
    t: Map<Seq<char>, Set<usize>>,
    k: Seq<char>,
    ids: Set<usize>,
    accm: Map<Seq<char>, Set<usize>>,
    accm2: Map<Seq<char>, Set<usize>>,
)
    requires
        accm == map_union(m0, t),
        !t.dom().contains(k),
        accm2 == accm.insert(
            k,
            (if accm.dom().contains(k) {
                accm[k]
            } else {
                Set::empty()
            }).union(ids),
        ),
    ensures
        accm2 == map_union(m0, t.insert(k, ids)),
{
    let rhs = map_union(m0, t.insert(k, ids));
    assert(accm2 =~= rhs) by {
        assert forall|x: Seq<char>| #[trigger] accm2.dom().contains(x) implies accm2[x] == rhs[x] by {
            if x == k {
                assert(accm.dom().contains(k) <==> m0.dom().contains(k));
                if m0.dom().contains(k) {
                    assert(accm[k] == m0[k].union(Set::empty()));
                    assert(m0[k].union(Set::empty()) =~= m0[k]);
                    assert(accm2[k] == m0[k].union(ids));
                    assert(rhs[k] == m0[k].union(ids));
                } else {
                    assert(accm2[k] =~= Set::<usize>::empty().union(ids));
                    assert(rhs[k] == Set::<usize>::empty().union(ids));
                }
            } else {
                assert(accm2[x] == accm[x]);
                assert(t.insert(k, ids).dom().contains(x) <==> t.dom().contains(x));
                if t.dom().contains(x) {
                    assert(t.insert(k, ids)[x] == t[x]);
                }
            }
        }
    }
}

/// A prefix of a duplicate-free association list is duplicate-free, and its
/// next key is fresh in it.
proof fn lemma_rd_take(m: Seq<(String, Vec<usize>)>, j: int)
    requires
        rd_inv(m),
        0 <= j < m.len(),
    ensures
        rd_inv(m.take(j)),
        !rd_has(m.take(j), m[j].0@),
        m.take(j + 1) == m.take(j).push(m[j]),
{
    assert forall|a: int, b: int| 0 <= a < b < m.take(j).len() implies (#[trigger] m.take(
        j,
    )[a]).0@ != (#[trigger] m.take(j)[b]).0@ by {
        assert(m.take(j)[a] == m[a] && m.take(j)[b] == m[b]);
    }
    if rd_has(m.take(j), m[j].0@) {
        let t = choose|t: int| 0 <= t < m.take(j).len() && (#[trigger] m.take(j)[t]).0@ == m[j].0@;
        assert(m[t].0@ == m[j].0@);
    }
    assert(m.take(j + 1) =~= m.take(j).push(m[j]));
}

/// The reaching-definitions analysis.
pub struct ReachingDefs;

impl DataFlowAnalysis for ReachingDefs {
    type State = Vec<(String, Vec<usize>)>;

    type StateModel = Map<Seq<char>, Set<usize>>;

    open spec fn forward() -> bool {
        true
    }

    open spec fn inv(s: Vec<(String, Vec<usize>)>) -> bool {
        rd_inv(s@)
    }

    open spec fn model(s: Vec<(String, Vec<usize>)>) -> Map<Seq<char>, Set<usize>> {
        rd_model(s@)
    }

    open spec fn model_le(
        a: Map<Seq<char>, Set<usize>>,
        b: Map<Seq<char>, Set<usize>>,
    ) -> bool {
        rd_le(a, b)
    }

    open spec fn init_model() -> Map<Seq<char>, Set<usize>> {
        Map::empty()
    }

    open spec fn merge_model(inputs: Seq<Map<Seq<char>, Set<usize>>>) -> Map<Seq<char>, Set<usize>> {
        merge_all(inputs)
    }

    open spec fn transfer_model(
        block: Seq<CodeView>,
        block_id: int,
        input: Map<Seq<char>, Set<usize>>,
    ) -> Map<Seq<char>, Set<usize>> {
        rd_transfer(block, block_id, input)
    }

    fn initial_state() -> (s: Vec<(String, Vec<usize>)>) {
        let s: Vec<(String, Vec<usize>)> = Vec::new();
        proof {
            assert(rd_model(s@) =~= Map::<Seq<char>, Set<usize>>::empty()) by {
                assert(rd_model(s@).dom() =~= Set::<Seq<char>>::empty());
            }
        }
        s
    }

    fn direction() -> (b: bool) {
        true
    }

    proof fn lemma_init_least(m: Map<Seq<char>, Set<usize>>) {
        assert(Map::<Seq<char>, Set<usize>>::empty().dom() =~= Set::<Seq<char>>::empty());
        assert(Map::<Seq<char>, Set<usize>>::empty().dom().subset_of(m.dom()));
    }

    proof fn lemma_merge_monotone(
        a: Seq<Map<Seq<char>, Set<usize>>>,
        b: Seq<Map<Seq<char>, Set<usize>>>,
    ) {
        lemma_merge_all_monotone(a, b);
    }

    proof fn lemma_transfer_monotone(
        block: Seq<CodeView>,
        block_id: int,
        a: Map<Seq<char>, Set<usize>>,
        b: Map<Seq<char>, Set<usize>>,
    ) {
        lemma_rd_transfer_monotone(block, block_id, a, b);
    }

    #[verifier::loop_isolation(false)]
    #[verifier::rlimit(60)]
    fn merge(inputs: &Vec<&Vec<(String, Vec<usize>)>>) -> (s: Vec<(String, Vec<usize>)>) {
        let ghost models = inputs@.map_values(|x: &Vec<(String, Vec<usize>)>| rd_model(x@));
        let mut acc: Vec<(String, Vec<usize>)> = Vec::new();
        proof {
            assert(rd_model(acc@) =~= Map::<Seq<char>, Set<usize>>::empty()) by {
                assert(rd_model(acc@).dom() =~= Set::<Seq<char>>::empty());
            }
            assert(models.take(0int) =~= Seq::<Map<Seq<char>, Set<usize>>>::empty());
        }
        let mut i: usize = 0;
        while i < inputs.len()
            invariant
                i <= inputs@.len(),
                models == inputs@.map_values(|x: &Vec<(String, Vec<usize>)>| rd_model(x@)),
                rd_inv(acc@),
                rd_model(acc@) == merge_all(models.take(i as int)),
            decreases inputs@.len() - i,
        {
            let cur = inputs[i];
            let ghost m0 = merge_all(models.take(i as int));
            proof {
                assert(Self::inv(*inputs@[i as int]));
                assert(rd_inv(cur@));
                assert(rd_model(cur@.take(0int)) =~= Map::<Seq<char>, Set<usize>>::empty()) by {
                    assert(rd_model(cur@.take(0int)).dom() =~= Set::<Seq<char>>::empty());
                }
                assert(map_union(m0, rd_model(cur@.take(0int))) =~= m0) by {
                    assert forall|x: Seq<char>|
                        #[trigger] map_union(m0, rd_model(cur@.take(0int))).dom().contains(x)
                        implies map_union(m0, rd_model(cur@.take(0int)))[x] == m0[x] by {
                        assert(m0[x].union(Set::empty()) =~= m0[x]);
                    }
                }
            }
            let mut j: usize = 0;
            while j < cur.len()
                invariant
                    j <= cur@.len(),
                    rd_inv(cur@),
                    rd_inv(acc@),
                    rd_model(acc@) == map_union(m0, rd_model(cur@.take(j as int))),
                decreases cur@.len() - j,
            {
                let ghost k = cur@[j as int].0@;
                let ghost tmodel = rd_model(cur@.take(j as int));
                proof {
                    lemma_rd_take(cur@, j as int);
                    if tmodel.dom().contains(k) {
                        assert(rd_has(cur@.take(j as int), k));
                    }
                    lemma_rd_fresh_push(cur@.take(j as int), cur@[j as int]);
                    assert(rd_model(cur@.take(j + 1)) == tmodel.insert(
                        k,
                        ids_set(cur@[j as int].1@),
                    ));
                }
                match rd_find(&acc, &cur[j].0) {
                    Option::Some(idx) => {
                        let mut new_ids = clone_ids(&acc[idx].1);
                        push_all_ids(&mut new_ids, &cur[j].1);
                        let ghost old_acc = acc@;
                        let new_key = cur[j].0.clone();
                        acc[idx] = (new_key, new_ids);
                        proof {
                            lemma_rd_entry_value(old_acc, idx as int);
                            assert(rd_model(old_acc)[k] == ids_set(old_acc[idx as int].1@));
                            lemma_rd_set_entry(old_acc, idx as int, acc@[idx as int]);
                            assert(acc@[idx as int].0@ == k);
                            assert(rd_model(acc@) == rd_model(old_acc).insert(
                                k,
                                ids_set(acc@[idx as int].1@),
                            ));
                            assert(ids_set(acc@[idx as int].1@) == rd_model(old_acc)[k].union(
                                ids_set(cur@[j as int].1@),
                            ));
                            assert(rd_model(old_acc).dom().contains(k));
                            lemma_merge_step(
                                m0,
                                tmodel,
                                k,
                                ids_set(cur@[j as int].1@),
                                rd_model(old_acc),
                                rd_model(acc@),
                            );
                        }
                    },
                    Option::None => {
                        let ids0 = clone_ids(&cur[j].1);
                        let ghost old_acc = acc@;
                        let new_key = cur[j].0.clone();
                        acc.push((new_key, ids0));
                        proof {
                            assert(acc@.last().0@ == k);
                            assert(!rd_has(old_acc, k));
                            lemma_rd_fresh_push(old_acc, acc@.last());
                            assert(acc@ == old_acc.push(acc@.last()));
                            assert(rd_model(acc@) == rd_model(old_acc).insert(
                                k,
                                ids_set(cur@[j as int].1@),
                            ));
                            assert(!rd_model(old_acc).dom().contains(k));
                            assert(ids_set(cur@[j as int].1@) =~= Set::<usize>::empty().union(
                                ids_set(cur@[j as int].1@),
                            ));
                            lemma_merge_step(
                                m0,
                                tmodel,
                                k,
                                ids_set(cur@[j as int].1@),
                                rd_model(old_acc),
                                rd_model(acc@),
                            );
                        }
                    },
                }
                j = j + 1;
            }
            proof {
                assert(cur@.take(cur@.len() as int) =~= cur@);
                assert(models.take(i + 1).drop_last() =~= models.take(i as int));
                assert(models.take(i + 1).last() == models[i as int]);
                assert(models[i as int] == rd_model(cur@));
                assert(merge_all(models.take(i + 1)) == map_union(m0, rd_model(cur@)));
            }
            i = i + 1;
        }
        proof {
            assert(models.take(models.len() as int) =~= models);
            assert(inputs@.map_values(|x: &Vec<(String, Vec<usize>)>| Self::model(*x)) =~= models);
        }
        acc
    }

    #[verifier::loop_isolation(false)]
    #[verifier::rlimit(60)]
    fn transfer(
        block: &Vec<Code>,
        block_id: usize,
        input: &Vec<(String, Vec<usize>)>,
    ) -> (s: Vec<(String, Vec<usize>)>) {
        let ghost bv = codes_view(block@);
        let ghost m_in = rd_model(input@);
        let ghost dset = block_defs(bv);
        let defs = get_block_defs(block);
        let mut out: Vec<(String, Vec<usize>)> = Vec::new();
        proof {
            assert(rd_model(out@) =~= Map::<Seq<char>, Set<usize>>::empty()) by {
                assert(rd_model(out@).dom() =~= Set::<Seq<char>>::empty());
            }
        }
        // keep the incoming origins of every variable the block does not define
        let mut i: usize = 0;
        while i < input.len()
            invariant
                i <= input@.len(),
                rd_inv(input@),
                rd_inv(out@),
                names_set(defs@) == dset,
                m_in == rd_model(input@),
                rd_model(out@) == Map::<Seq<char>, Set<usize>>::new(
                    |x: Seq<char>| rd_has(input@.take(i as int), x) && !dset.contains(x),
                    |x: Seq<char>| m_in[x],
                ),
            decreases input@.len() - i,
        {
            let ghost k = input@[i as int].0@;
            let ghost target_i = Map::<Seq<char>, Set<usize>>::new(
                |x: Seq<char>| rd_has(input@.take(i as int), x) && !dset.contains(x),
                |x: Seq<char>| m_in[x],
            );
            let ghost target_i1 = Map::<Seq<char>, Set<usize>>::new(
                |x: Seq<char>| rd_has(input@.take(i + 1), x) && !dset.contains(x),
                |x: Seq<char>| m_in[x],
            );
            proof {
                lemma_rd_take(input@, i as int);
                assert forall|x: Seq<char>| true implies (#[trigger] rd_has(input@.take(i + 1), x)
                    == (rd_has(input@.take(i as int), x) || x == k)) by {
                    if rd_has(input@.take(i + 1), x) {
                        let t = choose|t: int|
                            0 <= t < input@.take(i + 1).len() && (#[trigger] input@.take(
                                i + 1,
                            )[t]).0@ == x;
                        if t < i {
                            assert(input@.take(i as int)[t].0@ == x);
                        } else {
                            assert(input@[i as int].0@ == x);
                        }
                    }
                    if rd_has(input@.take(i as int), x) {
                        let t = choose|t: int|
                            0 <= t < input@.take(i as int).len() && (#[trigger] input@.take(
                                i as int,
                            )[t]).0@ == x;
                        assert(input@.take(i + 1)[t].0@ == x);
                    }
                    if x == k {
                        assert(input@.take(i + 1)[i as int].0@ == x);
                    }
                }
            }
            if !crate::live_variables::contains_name(&defs, &input[i].0) {
                let ids0 = clone_ids(&input[i].1);
                let ghost old_out = out@;
                let new_key = input[i].0.clone();
                out.push((new_key, ids0));
                proof {
                    assert(out@.last().0@ == k);
                    assert(!rd_has(old_out, k)) by {
                        if rd_has(old_out, k) {
                            assert(rd_model(old_out).dom().contains(k));
                            assert(rd_has(input@.take(i as int), k));
                        }
                    }
                    lemma_rd_fresh_push(old_out, out@.last());
                    lemma_rd_entry_value(input@, i as int);
                    assert(ids_set(out@.last().1@) == m_in[k]);
                    assert(rd_model(out@) =~= target_i1) by {
                        assert forall|x: Seq<char>| #[trigger] rd_model(out@).dom().contains(x)
                            implies rd_model(out@)[x] == target_i1[x] by {
                            if x != k {
                                assert(rd_model(out@)[x] == rd_model(old_out)[x]);
                                assert(rd_model(old_out)[x] == target_i[x]);
                            }
                        }
                    }
                }
            } else {
                proof {
                    assert(dset.contains(k));
                    assert(rd_model(out@) =~= target_i1) by {
                        assert forall|x: Seq<char>| #[trigger] rd_model(out@).dom().contains(x)
                            implies rd_model(out@)[x] == target_i1[x] by {
                            assert(rd_model(out@)[x] == target_i[x]);
                        }
                    }
                }
            }
            i = i + 1;
        }
        proof {
            assert(input@.take(input@.len() as int) =~= input@);
            assert forall|x: Seq<char>| true implies (#[trigger] rd_has(
                input@.take(input@.len() as int),
                x,
            ) == m_in.dom().contains(x)) by {}
        }
        // every variable the block defines now comes from this block alone
        let mut ids_b: Vec<usize> = Vec::new();
        ids_b.push(block_id);
        proof {
            assert(ids_set(ids_b@) =~= just(block_id as int));
        }
        let mut jd: usize = 0;
        while jd < defs.len()
            invariant
                jd <= defs@.len(),
                rd_inv(out@),
                ids_b@ == seq![block_id],
                names_set(defs@) == dset,
                m_in == rd_model(input@),
                rd_model(out@) == Map::<Seq<char>, Set<usize>>::new(
                    |x: Seq<char>|
                        (m_in.dom().contains(x) && !dset.contains(x)) || names_set(
                            defs@.take(jd as int),
                        ).contains(x),
                    |x: Seq<char>|
                        if names_set(defs@.take(jd as int)).contains(x) {
                            just(block_id as int)
                        } else {
                            m_in[x]
                        },
                ),
            decreases defs@.len() - jd,
        {
            let ghost d = defs@[jd as int]@;
            let ghost target_j = Map::<Seq<char>, Set<usize>>::new(
                |x: Seq<char>|
                    (m_in.dom().contains(x) && !dset.contains(x)) || names_set(
                        defs@.take(jd as int),
                    ).contains(x),
                |x: Seq<char>|
                    if names_set(defs@.take(jd as int)).contains(x) {
                        just(block_id as int)
                    } else {
                        m_in[x]
                    },
            );
            let ghost target_j1 = Map::<Seq<char>, Set<usize>>::new(
                |x: Seq<char>|
                    (m_in.dom().contains(x) && !dset.contains(x)) || names_set(
                        defs@.take(jd + 1),
                    ).contains(x),
                |x: Seq<char>|
                    if names_set(defs@.take(jd + 1)).contains(x) {
                        just(block_id as int)
                    } else {
                        m_in[x]
                    },
            );
            proof {
                assert forall|x: Seq<char>| true implies (#[trigger] names_set(
                    defs@.take(jd + 1),
                ).contains(x) == (names_set(defs@.take(jd as int)).contains(x) || x == d)) by {
                    assert(defs@.take(jd + 1) =~= defs@.take(jd as int).push(defs@[jd as int]));
                    if names_set(defs@.take(jd + 1)).contains(x) {
                        let t = choose|t: int|
                            0 <= t < defs@.take(jd + 1).len() && (#[trigger] defs@.take(
                                jd + 1,
                            )[t])@ == x;
                        if t < jd {
                            assert(defs@.take(jd as int)[t]@ == x);
                        } else {
                            assert(defs@[jd as int]@ == x);
                        }
                    }
                    if names_set(defs@.take(jd as int)).contains(x) {
                        let t = choose|t: int|
                            0 <= t < defs@.take(jd as int).len() && (#[trigger] defs@.take(
                                jd as int,
                            )[t])@ == x;
                        assert(defs@.take(jd + 1)[t]@ == x);
                    }
                    if x == d {
                        assert(defs@.take(jd + 1)[jd as int]@ == x);
                    }
                }
                assert(dset.contains(d)) by {
                    assert(names_set(defs@).contains(d)) by {
                        assert(defs@[jd as int]@ == d);
                    }
                }
            }
            match rd_find(&out, &defs[jd]) {
                Option::Some(_) => {
                    proof {
                        assert(rd_has(out@, d));
                        assert(rd_model(out@).dom().contains(d));
                        assert(names_set(defs@.take(jd as int)).contains(d));
                        assert(rd_model(out@) =~= target_j1) by {
                            assert forall|x: Seq<char>| #[trigger] rd_model(out@).dom().contains(
                                x,
                            ) implies rd_model(out@)[x] == target_j1[x] by {
                                assert(rd_model(out@)[x] == target_j[x]);
                            }
                        }
                    }
                },
                Option::None => {
                    let ids_d = clone_ids(&ids_b);
                    let ghost old_out = out@;
                    let new_key = defs[jd].clone();
                    out.push((new_key, ids_d));
                    proof {
                        assert(out@.last().0@ == d);
                        lemma_rd_fresh_push(old_out, out@.last());
                        assert(ids_set(out@.last().1@) =~= just(block_id as int));
                        assert(rd_model(out@) == rd_model(old_out).insert(
                            d,
                            ids_set(out@.last().1@),
                        ));
                        assert(rd_model(out@) =~= target_j1) by {
                            assert forall|x: Seq<char>| #[trigger] rd_model(out@).dom().contains(
                                x,
                            ) implies rd_model(out@)[x] == target_j1[x] by {
                                if x != d {
                                    assert(rd_model(out@)[x] == rd_model(old_out)[x]);
                                    assert(rd_model(old_out)[x] == target_j[x]);
                                }
                            }
                        }
                    }
                },
            }
            jd = jd + 1;
        }
        proof {
            assert(defs@.take(defs@.len() as int) =~= defs@);
            assert(rd_model(out@) =~= rd_transfer(bv, block_id as int, m_in)) by {
                assert forall|x: Seq<char>| #[trigger] rd_model(out@).dom().contains(x) implies
                    rd_model(out@)[x] == rd_transfer(bv, block_id as int, m_in)[x] by {}
            }
        }
        out
    }

    #[verifier::loop_isolation(false)]
    fn same_state(a: &Vec<(String, Vec<usize>)>, b: &Vec<(String, Vec<usize>)>) -> (r: bool) {
        let mut i: usize = 0;
        while i < a.len()
            invariant
                i <= a@.len(),
                rd_inv(a@),
                rd_inv(b@),
                forall|j: int|
                    0 <= j < i ==> rd_has(b@, (#[trigger] a@[j]).0@) && rd_model(b@)[a@[j].0@]
                        == rd_model(a@)[a@[j].0@],
            decreases a@.len() - i,
        {
            proof {
                lemma_rd_entry_value(a@, i as int);
            }
            match rd_find(b, &a[i].0) {
                Option::Some(idx) => {
                    proof {
                        lemma_rd_entry_value(b@, idx as int);
                    }
                    let fwd = ids_subset(&a[i].1, &b[idx].1);
                    let bwd = ids_subset(&b[idx].1, &a[i].1);
                    if !(fwd && bwd) {
                        proof {
                            assert(ids_set(a@[i as int].1@) != ids_set(b@[idx as int].1@)) by {
                                if ids_set(a@[i as int].1@) == ids_set(b@[idx as int].1@) {
                                    assert(ids_set(a@[i as int].1@).subset_of(
                                        ids_set(b@[idx as int].1@),
                                    ));
                                    assert(ids_set(b@[idx as int].1@).subset_of(
                                        ids_set(a@[i as int].1@),
                                    ));
                                }
                            }
                            assert(rd_model(a@)[a@[i as int].0@] != rd_model(b@)[a@[i as int].0@]);
                            assert(rd_model(a@) != rd_model(b@)) by {
                                if rd_model(a@) == rd_model(b@) {
                                }
                            }
                        }
                        return false;
                    }
                    proof {
                        assert(ids_set(a@[i as int].1@) =~= ids_set(b@[idx as int].1@));
                    }
                },
                Option::None => {
                    proof {
                        assert(rd_model(a@).dom().contains(a@[i as int].0@));
                        assert(!rd_model(b@).dom().contains(a@[i as int].0@));
                        assert(rd_model(a@) != rd_model(b@)) by {
                            if rd_model(a@) == rd_model(b@) {
                            }
                        }
                    }
                    return false;
                },
            }
            i = i + 1;
        }
        let mut j2: usize = 0;
        while j2 < b.len()
            invariant
                j2 <= b@.len(),
                rd_inv(a@),
                rd_inv(b@),
                forall|j: int|
                    0 <= j < a@.len() ==> rd_has(b@, (#[trigger] a@[j]).0@) && rd_model(b@)[a@[j].0@]
                        == rd_model(a@)[a@[j].0@],
                forall|j: int| 0 <= j < j2 ==> rd_has(a@, (#[trigger] b@[j]).0@),
            decreases b@.len() - j2,
        {
            match rd_find(a, &b[j2].0) {
                Option::Some(_) => {},
                Option::None => {
                    proof {
                        lemma_rd_entry_value(b@, j2 as int);
                        assert(rd_model(b@).dom().contains(b@[j2 as int].0@));
                        assert(!rd_model(a@).dom().contains(b@[j2 as int].0@));
                        assert(rd_model(a@) != rd_model(b@)) by {
                            if rd_model(a@) == rd_model(b@) {
                            }
                        }
                    }
                    return false;
                },
            }
            j2 = j2 + 1;
        }
        proof {
            assert(rd_model(a@) =~= rd_model(b@)) by {
                assert forall|x: Seq<char>| true implies (#[trigger] rd_model(a@).dom().contains(x)
                    == rd_model(b@).dom().contains(x)) by {
                    if rd_has(a@, x) {
                        let t = choose|t: int| 0 <= t < a@.len() && (#[trigger] a@[t]).0@ == x;
                    }
                    if rd_has(b@, x) {
                        let t = choose|t: int| 0 <= t < b@.len() && (#[trigger] b@[t]).0@ == x;
                    }
                }
                assert forall|x: Seq<char>| #[trigger] rd_model(a@).dom().contains(x) implies
                    rd_model(a@)[x] == rd_model(b@)[x] by {
                    let t = choose|t: int| 0 <= t < a@.len() && (#[trigger] a@[t]).0@ == x;
                }
            }
        }
        true
    }
}

} // verus!
