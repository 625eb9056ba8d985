//! Live-variable analysis: a backward dataflow problem over sets of
//! variable names.
//!
//! A variable is live at a point when some later path uses its current
//! value.  The transfer function walks a block backwards: a use makes a
//! variable live, a definition kills it.

use vstd::prelude::*;

use crate::df::DataFlowAnalysis;
use crate::ir::{codes_view, strings_view, Code, CodeView, Instruction, InstructionView};

verus! {

broadcast use vstd::seq_lib::lemma_seq_contains_after_push;

/// The set of names a list of variables stands for.
pub open spec fn names_set(v: Seq<String>) -> Set<Seq<char>> {
    Set::new(|s: Seq<char>| exists|i: int| 0 <= i < v.len() && (#[trigger] v[i])@ == s)
}

/// The set of names in a sequence of name values.
pub open spec fn args_set(args: Seq<Seq<char>>) -> Set<Seq<char>> {
    Set::new(|s: Seq<char>| args.contains(s))
}

/// One backward step of liveness over a single code item: a definition kills
/// its variable, a use makes its arguments live.
pub open spec fn live_step(c: CodeView, s: Set<Seq<char>>) -> Set<Seq<char>> {
    match c {
        CodeView::Instruction(InstructionView::Constant { dest, .. }) => s.remove(dest),
        CodeView::Instruction(InstructionView::Value { dest, args, .. }) => s.remove(dest).union(
            args_set(args),
        ),
        CodeView::Instruction(InstructionView::Effect { args, .. }) => s.union(args_set(args)),
        CodeView::Label { .. } => s,
    }
}

/// The live set before a block, from the live set after it: the items are
/// applied back to front.
pub open spec fn live_transfer(items: Seq<CodeView>, out: Set<Seq<char>>) -> Set<Seq<char>>
    decreases items.len(),
{
    if items.len() == 0 {
        out
    } else {
        live_step(items.first(), live_transfer(items.drop_first(), out))
    }
}

/// The union of a sequence of name sets.
pub open spec fn union_all(inputs: Seq<Set<Seq<char>>>) -> Set<Seq<char>>
    decreases inputs.len(),
{
    if inputs.len() == 0 {
        Set::empty()
    } else {
        union_all(inputs.drop_last()).union(inputs.last())
    }
}

/// Runtime membership test on a list of names.
pub fn contains_name(v: &Vec<String>, s: &String) -> (r: bool)
    ensures
        r == names_set(v@).contains(s@),
{
    let mut i: usize = 0;
    while i < v.len()
        invariant
            i <= v.len(),
            forall|j: int| 0 <= j < i ==> (#[trigger] v@[j])@ != s@,
        decreases v.len() - i,
    {
        if v[i] == *s {
            return true;
        }
        i = i + 1;
    }
    false
}

/// A copy of the list without any occurrence of the given name.
pub fn remove_name(v: &Vec<String>, s: &String) -> (r: Vec<String>)
    ensures
        names_set(r@) == names_set(v@).remove(s@),
{
    let mut r: Vec<String> = Vec::new();
    let mut i: usize = 0;
    while i < v.len()
        invariant
            i <= v.len(),
            names_set(r@) == names_set(v@.take(i as int)).remove(s@),
        decreases v.len() - i,
    {
        let ghost old_r = r@;
        if !(v[i] == *s) {
            r.push(v[i].clone());
        }
        proof {
            assert(names_set(r@) =~= names_set(v@.take(i + 1)).remove(s@)) by {
                assert(v@.take(i + 1) =~= v@.take(i as int).push(v@[i as int]));
                assert forall|x: Seq<char>| #[trigger] names_set(r@).contains(x) implies names_set(
                    v@.take(i + 1),
                ).remove(s@).contains(x) by {
                    let j = choose|j: int| 0 <= j < r@.len() && (#[trigger] r@[j])@ == x;
                    if j < old_r.len() {
                        assert(old_r[j]@ == x);
                        assert(names_set(old_r).contains(x));
                        assert(names_set(v@.take(i as int)).remove(s@).contains(x));
                        let j3 = choose|j3: int|
                            0 <= j3 < v@.take(i as int).len() && (#[trigger] v@.take(
                                i as int,
                            )[j3])@ == x;
                        assert(v@.take(i + 1)[j3]@ == x);
                        assert(names_set(v@.take(i + 1)).contains(x));
                    } else {
                        assert(r@[j]@ == v@[i as int]@);
                        assert(v@.take(i + 1)[i as int]@ == x);
                        assert(names_set(v@.take(i + 1)).contains(x));
                        assert(x != s@);
                    }
                }
                assert forall|x: Seq<char>|
                    names_set(v@.take(i + 1)).remove(s@).contains(x) implies #[trigger] names_set(
                    r@,
                ).contains(x) by {
                    let j = choose|j: int|
                        0 <= j < v@.take(i + 1).len() && (#[trigger] v@.take(i + 1)[j])@ == x;
                    if j < i {
                        assert(names_set(v@.take(i as int)).contains(x)) by {
                            assert(v@.take(i as int)[j]@ == x);
                        }
                        assert(names_set(old_r).contains(x));
                        let j2 = choose|j2: int| 0 <= j2 < old_r.len() && (#[trigger] old_r[j2])@ == x;
                        assert(r@[j2]@ == x);
                    } else {
                        assert(v@[i as int]@ == x);
                        assert(r@[r@.len() - 1]@ == x);
                    }
                }
            }
        }
        i = i + 1;
    }
    proof {
        assert(v@.take(v@.len() as int) =~= v@);
    }
    r
}

/// Appends a copy of every name of `src` to `dst`.
pub fn push_all(dst: &mut Vec<String>, src: &Vec<String>)
    ensures
        names_set(final(dst)@) == names_set(old(dst)@).union(names_set(src@)),
{
    let mut j: usize = 0;
    while j < src.len()
        invariant
            j <= src.len(),
            names_set(dst@) == names_set(old(dst)@).union(names_set(src@.take(j as int))),
        decreases src.len() - j,
    {
        let ghost before = dst@;
        dst.push(src[j].clone());
        proof {
            assert(names_set(dst@) =~= names_set(old(dst)@).union(names_set(src@.take(j + 1))))
                by {
                assert(src@.take(j + 1) =~= src@.take(j as int).push(src@[j as int]));
                assert forall|x: Seq<char>| #[trigger] names_set(dst@).contains(x) implies
                    names_set(old(dst)@).union(names_set(src@.take(j + 1))).contains(x) by {
                    let t = choose|t: int| 0 <= t < dst@.len() && (#[trigger] dst@[t])@ == x;
                    if t < before.len() {
                        assert(before[t]@ == x);
                        assert(names_set(before).contains(x));
                    } else {
                        assert(dst@[t]@ == src@[j as int]@);
                        assert(src@.take(j + 1)[j as int]@ == x);
                        assert(names_set(src@.take(j + 1)).contains(x));
                    }
                }
                assert forall|x: Seq<char>|
                    names_set(old(dst)@).union(names_set(src@.take(j + 1))).contains(x) implies
                    #[trigger] names_set(dst@).contains(x) by {
                    if names_set(before).contains(x) {
                        let t = choose|t: int| 0 <= t < before.len() && (#[trigger] before[t])@ == x;
                        assert(dst@[t]@ == x);
                    } else if names_set(src@.take(j + 1)).contains(x) {
                        let t = choose|t: int|
                            0 <= t < src@.take(j + 1).len() && (#[trigger] src@.take(j + 1)[t])@
                                == x;
                        if t < j {
                            assert(src@.take(j as int)[t]@ == x);
                            assert(names_set(before).contains(x)) by {
                                assert(names_set(src@.take(j as int)).contains(x));
                            }
                            let t2 = choose|t2: int|
                                0 <= t2 < before.len() && (#[trigger] before[t2])@ == x;
                            assert(dst@[t2]@ == x);
                        } else {
                            assert(dst@[dst@.len() - 1]@ == x);
                        }
                    }
                }
            }
        }
        j = j + 1;
    }
    proof {
        assert(src@.take(src@.len() as int) =~= src@);
        assert(names_set(src@.take(src@.len() as int)) == names_set(src@));
    }
}

/// Whether every name of `a` also stands in `b`.
pub fn names_subset(a: &Vec<String>, b: &Vec<String>) -> (r: bool)
    ensures
        r == names_set(a@).subset_of(names_set(b@)),
{
    let mut i: usize = 0;
    while i < a.len()
        invariant
            i <= a.len(),
            forall|j: int| 0 <= j < i ==> names_set(b@).contains((#[trigger] a@[j])@),
        decreases a.len() - i,
    {
        if !contains_name(b, &a[i]) {
            proof {
                assert(names_set(a@).contains(a@[i as int]@));
            }
            return false;
        }
        i = i + 1;
    }
    proof {
        assert forall|x: Seq<char>| #[trigger] names_set(a@).contains(x) implies names_set(
            b@,
        ).contains(x) by {
            let j = choose|j: int| 0 <= j < a@.len() && (#[trigger] a@[j])@ == x;
        }
    }
    true
}

/// Pointwise-larger sets have a larger union.
pub proof fn lemma_union_all_monotone(a: Seq<Set<Seq<char>>>, b: Seq<Set<Seq<char>>>)
    requires
        a.len() == b.len(),
        forall|i: int| 0 <= i < a.len() ==> (#[trigger] a[i]).subset_of(b[i]),
    ensures
        union_all(a).subset_of(union_all(b)),
    decreases a.len(),
{
    if a.len() > 0 {
        assert forall|i: int| 0 <= i < a.drop_last().len() implies (#[trigger] a.drop_last()[i]).subset_of(
            b.drop_last()[i],
        ) by {
            assert(a.drop_last()[i] == a[i] && b.drop_last()[i] == b[i]);
        }
        lemma_union_all_monotone(a.drop_last(), b.drop_last());
        assert forall|x: Seq<char>| #[trigger] union_all(a).contains(x) implies union_all(
            b,
        ).contains(x) by {
            if union_all(a.drop_last()).contains(x) {
                assert(union_all(b.drop_last()).contains(x));
            } else {
                assert(a.last().contains(x));
                assert(a[a.len() - 1].subset_of(b[b.len() - 1]));
                assert(b.last().contains(x));
            }
        }
    }
}

/// A larger live set after a block gives a larger live set before it.
pub proof fn lemma_live_transfer_monotone(
    items: Seq<CodeView>,
    a: Set<Seq<char>>,
    b: Set<Seq<char>>,
)
    requires
        a.subset_of(b),
    ensures
        live_transfer(items, a).subset_of(live_transfer(items, b)),
    decreases items.len(),
{
    if items.len() > 0 {
        lemma_live_transfer_monotone(items.drop_first(), a, b);
        let sa = live_transfer(items.drop_first(), a);
        let sb = live_transfer(items.drop_first(), b);
        assert forall|x: Seq<char>| #[trigger] live_step(items.first(), sa).contains(x) implies
            live_step(items.first(), sb).contains(x) by {
            match items.first() {
                CodeView::Instruction(InstructionView::Constant { dest, .. }) => {
                    assert(sa.contains(x) && x != dest);
                },
                CodeView::Instruction(InstructionView::Value { dest, args, .. }) => {
                    if sa.remove(dest).contains(x) {
                        assert(sb.remove(dest).contains(x));
                    }
                },
                CodeView::Instruction(InstructionView::Effect { .. }) => {},
                CodeView::Label { .. } => {},
            }
        }
    }
}

/// The live-variable analysis.
pub struct LiveVariables;

impl DataFlowAnalysis for LiveVariables {
    type State = Vec<String>;

    type StateModel = Set<Seq<char>>;

    open spec fn forward() -> bool {
        false
    }

    open spec fn inv(s: Vec<String>) -> bool {
        true
    }

    open spec fn model(s: Vec<String>) -> Set<Seq<char>> {
        names_set(s@)
    }

    open spec fn model_le(a: Set<Seq<char>>, b: Set<Seq<char>>) -> bool {
        a.subset_of(b)
    }

    open spec fn init_model() -> Set<Seq<char>> {
        Set::empty()
    }

    open spec fn merge_model(inputs: Seq<Set<Seq<char>>>) -> Set<Seq<char>> {
        union_all(inputs)
    }

    open spec fn transfer_model(block: Seq<CodeView>, block_id: int, input: Set<Seq<char>>) -> Set<
        Seq<char>,
    > {
        live_transfer(block, input)
    }

    fn initial_state() -> (s: Vec<String>) {
        let s: Vec<String> = Vec::new();
        proof {
            assert(names_set(s@) =~= Set::<Seq<char>>::empty());
        }
        s
    }

    fn direction() -> (b: bool) {
        false
    }

    proof fn lemma_init_least(m: Set<Seq<char>>) {
        assert(Set::<Seq<char>>::empty().subset_of(m));
    }

    proof fn lemma_merge_monotone(a: Seq<Set<Seq<char>>>, b: Seq<Set<Seq<char>>>) {
        lemma_union_all_monotone(a, b);
    }

    proof fn lemma_transfer_monotone(
        block: Seq<CodeView>,
        block_id: int,
        a: Set<Seq<char>>,
        b: Set<Seq<char>>,
    ) {
        lemma_live_transfer_monotone(block, a, b);
    }

    #[verifier::loop_isolation(false)]
    fn merge(inputs: &Vec<&Vec<String>>) -> (s: Vec<String>) {
        let ghost models = inputs@.map_values(|x: &Vec<String>| names_set(x@));
        let mut s: Vec<String> = Vec::new();
        proof {
            assert(names_set(s@) =~= Set::<Seq<char>>::empty());
            assert(models.take(0int) =~= Seq::<Set<Seq<char>>>::empty());
        }
        let mut i: usize = 0;
        while i < inputs.len()
            invariant
                i <= inputs@.len(),
                models == inputs@.map_values(|x: &Vec<String>| names_set(x@)),
                names_set(s@) == union_all(models.take(i as int)),
            decreases inputs@.len() - i,
        {
            push_all(&mut s, inputs[i]);
            proof {
                assert(models.take(i + 1).drop_last() =~= models.take(i as int));
                assert(models.take(i + 1).last() == models[i as int]);
                assert(names_set(s@) == union_all(models.take(i + 1)));
            }
            i = i + 1;
        }
        proof {
            assert(models.take(models.len() as int) =~= models);
            assert(inputs@.map_values(|x: &Vec<String>| Self::model(*x)) =~= models);
        }
        s
    }

    #[verifier::loop_isolation(false)]
    fn transfer(block: &Vec<Code>, block_id: usize, input: &Vec<String>) -> (s: Vec<String>) {
        let ghost bv = codes_view(block@);
        let ghost out_m = names_set(input@);
        let mut s: Vec<String> = Vec::new();
        push_all(&mut s, input);
        proof {
            assert(names_set(s@) =~= out_m);
            assert(bv.skip(bv.len() as int) =~= Seq::<CodeView>::empty());
        }
        let mut i: usize = block.len();
        while i > 0
            invariant
                i <= block@.len(),
                bv == codes_view(block@),
                names_set(s@) == live_transfer(bv.skip(i as int), out_m),
            decreases i,
        {
            i = i - 1;
            let ghost tail = bv.skip(i + 1);
            proof {
                assert(bv.skip(i as int).first() == bv[i as int]);
                assert(bv.skip(i as int).drop_first() =~= tail);
                assert(bv[i as int] == block@[i as int]@);
            }
            match &block[i] {
                Code::Instruction(Instruction::Constant { dest, .. }) => {
                    s = remove_name(&s, dest);
                },
                Code::Instruction(Instruction::Value { dest, args, .. }) => {
                    s = remove_name(&s, dest);
                    push_all(&mut s, args);
                    proof {
                        assert(names_set(args@) =~= args_set(strings_view(args@))) by {
                            assert forall|x: Seq<char>| #[trigger] names_set(args@).contains(x)
                                implies args_set(strings_view(args@)).contains(x) by {
                                let j = choose|j: int|
                                    0 <= j < args@.len() && (#[trigger] args@[j])@ == x;
                                assert(strings_view(args@)[j] == x);
                            }
                            assert forall|x: Seq<char>|
                                args_set(strings_view(args@)).contains(x) implies #[trigger] names_set(
                                args@,
                            ).contains(x) by {
                                let j = choose|j: int|
                                    0 <= j < strings_view(args@).len() && strings_view(args@)[j]
                                        == x;
                                assert(args@[j]@ == x);
                            }
                        }
                    }
                },
                Code::Instruction(Instruction::Effect { args, .. }) => {
                    push_all(&mut s, args);
                    proof {
                        assert(names_set(args@) =~= args_set(strings_view(args@))) by {
                            assert forall|x: Seq<char>| #[trigger] names_set(args@).contains(x)
                                implies args_set(strings_view(args@)).contains(x) by {
                                let j = choose|j: int|
                                    0 <= j < args@.len() && (#[trigger] args@[j])@ == x;
                                assert(strings_view(args@)[j] == x);
                            }
                            assert forall|x: Seq<char>|
                                args_set(strings_view(args@)).contains(x) implies #[trigger] names_set(
                                args@,
                            ).contains(x) by {
                                let j = choose|j: int|
                                    0 <= j < strings_view(args@).len() && strings_view(args@)[j]
                                        == x;
                                assert(args@[j]@ == x);
                            }
                        }
                    }
                },
                Code::Label { .. } => {},
            }
            proof {
                assert(names_set(s@) == live_step(bv[i as int], live_transfer(tail, out_m)));
                assert(live_transfer(bv.skip(i as int), out_m) == live_step(
                    bv.skip(i as int).first(),
                    live_transfer(bv.skip(i as int).drop_first(), out_m),
                ));
            }
        }
        proof {
            assert(bv.skip(0int) =~= bv);
        }
        s
    }

    #[verifier::loop_isolation(false)]
    fn same_state(a: &Vec<String>, b: &Vec<String>) -> (r: bool) {
        let r = names_subset(a, b) && names_subset(b, a);
        proof {
            if r {
                assert(names_set(a@) =~= names_set(b@));
            }
        }
        r
    }
}

} // verus!
