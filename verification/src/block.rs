//! Splitting a function's flat instruction stream into maximal basic blocks,
//! and flattening the blocks back into a stream.

use vstd::prelude::*;

use crate::ir::{
    code_is_label, code_is_terminator, codes_view, is_label, is_terminator, Code, CodeView,
    Function,
};

verus! {

/// The sequence of item values a list of blocks stands for.
pub open spec fn blocks_view(bs: Seq<Vec<Code>>) -> Seq<Seq<CodeView>> {
    bs.map_values(|b: Vec<Code>| codes_view(b@))
}

/// The concatenation of a sequence of blocks.
pub open spec fn flatten_view(bs: Seq<Seq<CodeView>>) -> Seq<CodeView>
    decreases bs.len(),
{
    if bs.len() == 0 {
        Seq::empty()
    } else {
        bs.first() + flatten_view(bs.drop_first())
    }
}

/// A well-formed basic block: non-empty, a label only as its first item, and a
/// control terminator only as its last item.
pub open spec fn wf_block(b: Seq<CodeView>) -> bool {
    &&& b.len() > 0
    &&& forall|j: int| 1 <= j < b.len() ==> !is_label(#[trigger] b[j])
    &&& forall|j: int| 0 <= j < b.len() - 1 ==> !is_terminator(#[trigger] b[j])
}

/// Blocks are maximal: two adjacent blocks are separated either by a
/// terminator closing the first or by a label opening the second.
pub open spec fn maximal_blocks(bs: Seq<Seq<CodeView>>) -> bool {
    forall|i: int|
        0 <= i < bs.len() - 1 ==> is_terminator(#[trigger] bs[i].last()) || is_label(
            bs[i + 1].first(),
        )
}

proof fn lemma_flatten_push(bs: Seq<Seq<CodeView>>, b: Seq<CodeView>)
    ensures
        flatten_view(bs.push(b)) == flatten_view(bs) + b,
    decreases bs.len(),
{
    if bs.len() == 0 {
        assert(bs.push(b).drop_first() =~= Seq::<Seq<CodeView>>::empty());
        assert(flatten_view(bs.push(b)) =~= flatten_view(bs) + b);
    } else {
        assert(bs.push(b).drop_first() =~= bs.drop_first().push(b));
        lemma_flatten_push(bs.drop_first(), b);
        assert(flatten_view(bs.push(b)) == bs.push(b).first() + flatten_view(
            bs.push(b).drop_first(),
        ));
        assert(bs.push(b).first() == bs.first());
        assert(flatten_view(bs.push(b)) == bs.first() + (flatten_view(bs.drop_first()) + b));
        assert(bs.first() + (flatten_view(bs.drop_first()) + b) =~= (bs.first() + flatten_view(
            bs.drop_first(),
        )) + b);
        assert(flatten_view(bs) == bs.first() + flatten_view(bs.drop_first()));
    }
}

/// Splits a function's instruction stream into maximal basic blocks.
///
/// Every label starts a new block and every jump, branch or return ends one;
/// flattening the result reproduces the instruction stream exactly.  An empty
/// function yields no blocks, and no block is ever empty.
#[verifier::loop_isolation(false)]
pub fn get_basic_blocks(function: &Function) -> (blocks: Vec<Vec<Code>>)
    ensures
        flatten_view(blocks_view(blocks@)) == codes_view(function.instrs@),
        forall|i: int| 0 <= i < blocks@.len() ==> wf_block(#[trigger] blocks_view(blocks@)[i]),
        maximal_blocks(blocks_view(blocks@)),
        function.instrs@.len() == 0 ==> blocks@.len() == 0,
{
    let mut blocks: Vec<Vec<Code>> = Vec::new();
    let mut current: Vec<Code> = Vec::new();
    let n = function.instrs.len();
    let mut idx: usize = 0;
    while idx < n
        invariant
            idx <= n,
            flatten_view(blocks_view(blocks@)) + codes_view(current@) == codes_view(
                function.instrs@.take(idx as int),
            ),
            forall|i: int| 0 <= i < blocks@.len() ==> wf_block(#[trigger] blocks_view(blocks@)[i]),
            maximal_blocks(blocks_view(blocks@)),
            forall|j: int| 1 <= j < current@.len() ==> !is_label(#[trigger] current@[j]@),
            forall|j: int| 0 <= j < current@.len() ==> !is_terminator(#[trigger] current@[j]@),
            current@.len() > 0 && blocks@.len() > 0 ==> is_terminator(
                blocks_view(blocks@).last().last(),
            ) || is_label(current@[0]@),
            current@.len() == 0 && blocks@.len() > 0 ==> is_terminator(
                blocks_view(blocks@).last().last(),
            ),
        decreases n - idx,
    {
        let code = &function.instrs[idx];
        if code_is_label(code) {
            if current.len() > 0 {
                proof {
                    lemma_flatten_push(blocks_view(blocks@), codes_view(current@));
                }
                let ghost old_blocks = blocks@;
                blocks.push(current);
                proof {
                    assert(blocks_view(blocks@) =~= blocks_view(old_blocks).push(
                        codes_view(blocks@.last()@),
                    ));
                }
            }
            current = Vec::new();
            current.push(code.clone());
        } else if code_is_terminator(code) {
            current.push(code.clone());
            proof {
                lemma_flatten_push(blocks_view(blocks@), codes_view(current@));
            }
            let ghost old_blocks = blocks@;
            blocks.push(current);
            proof {
                assert(blocks_view(blocks@) =~= blocks_view(old_blocks).push(
                    codes_view(blocks@.last()@),
                ));
            }
            current = Vec::new();
        } else {
            current.push(code.clone());
        }
        proof {
            assert(codes_view(function.instrs@.take(idx + 1)) =~= codes_view(
                function.instrs@.take(idx as int),
            ).push(function.instrs@[idx as int]@));
            assert(flatten_view(blocks_view(blocks@)) + codes_view(current@) =~= codes_view(
                function.instrs@.take(idx + 1),
            ));
        }
        idx = idx + 1;
    }
    if current.len() > 0 {
        proof {
            lemma_flatten_push(blocks_view(blocks@), codes_view(current@));
        }
        let ghost old_blocks = blocks@;
        blocks.push(current);
        proof {
            assert(blocks_view(blocks@) =~= blocks_view(old_blocks).push(
                codes_view(blocks@.last()@),
            ));
        }
    }
    proof {
        assert(function.instrs@.take(n as int) =~= function.instrs@);
    }
    blocks
}

/// Concatenates basic blocks back into a flat instruction stream.
#[verifier::loop_isolation(false)]
pub fn flatten(blocks: Vec<Vec<Code>>) -> (instrs: Vec<Code>)
    ensures
        codes_view(instrs@) == flatten_view(blocks_view(blocks@)),
{
    let ghost original = blocks_view(blocks@);
    let mut blocks = blocks;
    let mut instrs: Vec<Code> = Vec::new();
    while blocks.len() > 0
        invariant
            codes_view(instrs@) + flatten_view(blocks_view(blocks@)) == flatten_view(original),
        decreases blocks@.len(),
    {
        let ghost before = blocks@;
        let mut blk = blocks.remove(0);
        proof {
            assert(blocks_view(before).drop_first() =~= blocks_view(blocks@));
            assert(codes_view(instrs@ + blk@) =~= codes_view(instrs@) + codes_view(blk@));
        }
        instrs.append(&mut blk);
    }
    proof {
        assert(codes_view(instrs@) =~= codes_view(instrs@) + flatten_view(blocks_view(blocks@)));
    }
    instrs
}

} // verus!
