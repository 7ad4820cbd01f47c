//! What data leaves do to the stack.
use crate::scripts;
use crate::scripts::Ins;
use crate::taproot_spend;
use crate::tapscript;
use crate::tapscript::Auth;
use crate::tapscript::Violate;
use vstd::prelude::*;

verus! {

/// The stack after one instruction, for the instructions that data leaves are made of; `None` where
/// the stack is too short or the instruction is another one. `OP_IF` is covered where its branch is
/// taken.
pub open spec fn step(stack: Seq<Seq<u8>>, i: Ins) -> Option<Seq<Seq<u8>>> {
    match i {
        Ins::Push(d) => Some(stack.push(d)),
        Ins::Op(op) => if op == scripts::OP_PUSHNUM_1 {
            Some(stack.push(seq![1u8]))
        } else if op == scripts::OP_DROP && stack.len() >= 1 {
            Some(stack.drop_last())
        } else if op == scripts::OP_2DROP && stack.len() >= 2 {
            Some(stack.drop_last().drop_last())
        } else if op == scripts::OP_IF && stack.len() >= 1 && stack.last() == seq![1u8] {
            Some(stack.drop_last())
        } else if op == scripts::OP_ENDIF {
            Some(stack)
        } else {
            None
        },
    }
}

/// The stack after a list of instructions.
pub open spec fn run(list: Seq<Ins>, stack: Seq<Seq<u8>>) -> Option<Seq<Seq<u8>>>
    decreases list.len(),
{
    if list.len() == 0 {
        Some(stack)
    } else {
        match run(list.drop_last(), stack) {
            Some(s) => step(s, list.last()),
            None => None,
        }
    }
}

/// Whether the depth of the stack lies within `lo..=hi` after every proper prefix of the list, the
/// empty one left out.
pub open spec fn depth_within(list: Seq<Ins>, stack: Seq<Seq<u8>>, lo: nat, hi: nat) -> bool {
    forall|k: int|
        0 < k < list.len() ==> (#[trigger] run(list.take(k), stack) is Some && lo <= run(
            list.take(k),
            stack,
        )->Some_0.len() <= hi)
}

/// Running a list one instruction longer is one more step.
proof fn lemma_run_push(list: Seq<Ins>, i: Ins, stack: Seq<Seq<u8>>)
    requires
        run(list, stack) is Some,
    ensures
        run(list.push(i), stack) == step(run(list, stack)->Some_0, i),
{
    assert(list.push(i).drop_last() =~= list);
}

/// Pushing and dropping pairs leaves the stack as it was, at most two above its depth on the way.
proof fn lemma_run_paired(l: Seq<Ins>, c: Seq<Seq<u8>>, k: int, stack: Seq<Seq<u8>>, mid: Seq<Seq<u8>>)
    requires
        0 <= k <= c.len() / 2,
        run(l, stack) == Some(mid),
    ensures
        run(l + tapscript::paired(c, k), stack) == Some(mid),
        forall|j: int|
            l.len() <= j <= l.len() + tapscript::paired(c, k).len() ==> (#[trigger] run(
                (l + tapscript::paired(c, k)).take(j),
                stack,
            ) is Some && mid.len() <= run((l + tapscript::paired(c, k)).take(j), stack)->Some_0.len()
                <= mid.len() + 2),
    decreases k,
{
    let all = l + tapscript::paired(c, k);
    if k == 0 {
        assert(all =~= l);
        assert(all.take(l.len() as int) =~= l);
    } else {
        lemma_run_paired(l, c, k - 1, stack, mid);
        let a0 = l + tapscript::paired(c, k - 1);
        let a1 = a0.push(Ins::Push(c[2 * k - 2]));
        let a2 = a1.push(Ins::Push(c[2 * k - 1]));
        let a3 = a2.push(Ins::Op(scripts::OP_2DROP));
        assert(all =~= a3);
        lemma_run_push(a0, Ins::Push(c[2 * k - 2]), stack);
        lemma_run_push(a1, Ins::Push(c[2 * k - 1]), stack);
        lemma_run_push(a2, Ins::Op(scripts::OP_2DROP), stack);
        assert(mid.push(c[2 * k - 2]).push(c[2 * k - 1]).drop_last().drop_last() =~= mid);
        assert forall|j: int| l.len() <= j <= all.len() implies (#[trigger] run(
            all.take(j),
            stack,
        ) is Some && mid.len() <= run(all.take(j), stack)->Some_0.len() <= mid.len() + 2) by {
            if j <= a0.len() {
                assert(all.take(j) =~= a0.take(j));
            } else if j == a1.len() {
                assert(all.take(j) =~= a1);
            } else if j == a2.len() {
                assert(all.take(j) =~= a2);
            } else {
                assert(all.take(j) =~= a3);
            }
        }
    }
}

/// The plain leaf leaves exactly one element, a one, on an empty stack, and never holds more than
/// two on the way.
pub proof fn law_plain_leaf_stack(data: Seq<u8>)
    ensures
        run(tapscript::plain_leaf(data), Seq::empty()) == Some(seq![seq![1u8]]),
        depth_within(tapscript::plain_leaf(data), Seq::empty(), 0, 2),
{
    let c = tapscript::data_chunks(data);
    let body = tapscript::paired(c, c.len() as int / 2);
    let none = Seq::<Seq<u8>>::empty();
    let start = Seq::<Ins>::empty();
    lemma_run_paired(start, c, c.len() as int / 2, none, none);
    assert(start + body =~= body);
    let leaf = tapscript::plain_leaf(data);
    let all = leaf.drop_last();
    if c.len() % 2 == 1 {
        let b1 = body.push(Ins::Push(c.last()));
        assert(all =~= b1.push(Ins::Op(scripts::OP_DROP)));
        lemma_run_push(body, Ins::Push(c.last()), none);
        lemma_run_push(b1, Ins::Op(scripts::OP_DROP), none);
        assert(none.push(c.last()).drop_last() =~= none);
        assert forall|k: int| 0 < k < leaf.len() implies (#[trigger] run(leaf.take(k), none) is Some
            && 0 <= run(leaf.take(k), none)->Some_0.len() <= 2) by {
            if k <= body.len() {
                assert(leaf.take(k) =~= body.take(k));
            } else if k == b1.len() {
                assert(leaf.take(k) =~= b1);
            } else {
                assert(leaf.take(k) =~= all);
            }
        }
    } else {
        assert(all =~= body);
        assert forall|k: int| 0 < k < leaf.len() implies (#[trigger] run(leaf.take(k), none) is Some
            && 0 <= run(leaf.take(k), none)->Some_0.len() <= 2) by {
            assert(leaf.take(k) =~= body.take(k));
        }
    }
    assert(leaf =~= all.push(Ins::Op(scripts::OP_PUSHNUM_1)));
    lemma_run_push(all, Ins::Op(scripts::OP_PUSHNUM_1), none);
    assert(none.push(seq![1u8]) =~= seq![seq![1u8]]);
}

/// The envelope leaves every stack as it was, and until its last instruction stays between one and
/// three elements above it.
pub proof fn law_envelope_is_depth_neutral(data: Seq<u8>, stack: Seq<Seq<u8>>)
    ensures
        run(tapscript::envelope(data), stack) == Some(stack),
        depth_within(tapscript::envelope(data), stack, stack.len() + 1, stack.len() + 3),
{
    let start = Seq::<Ins>::empty();
    lemma_run_envelope(start, data, stack, stack);
    assert(start + tapscript::envelope(data) =~= tapscript::envelope(data));
}

/// The same behind a list `l` that leads from `stack` to `mid`.
proof fn lemma_run_envelope(l: Seq<Ins>, data: Seq<u8>, stack: Seq<Seq<u8>>, mid: Seq<Seq<u8>>)
    requires
        run(l, stack) == Some(mid),
    ensures
        run(l + tapscript::envelope(data), stack) == Some(mid),
        forall|j: int|
            l.len() < j < l.len() + tapscript::envelope(data).len() ==> (#[trigger] run(
                (l + tapscript::envelope(data)).take(j),
                stack,
            ) is Some && mid.len() + 1 <= run((l + tapscript::envelope(data)).take(j), stack)->Some_0.len()
                <= mid.len() + 3),
{
    let c = tapscript::data_chunks(data);
    let guard = Ins::Push(tapscript::PROTOCOL_ID@);
    let l1 = l.push(guard);
    let body = l1 + tapscript::paired(c, c.len() as int / 2);
    let mid1 = mid.push(tapscript::PROTOCOL_ID@);
    let all = l + tapscript::envelope(data);
    lemma_run_push(l, guard, stack);
    lemma_run_paired(l1, c, c.len() as int / 2, stack, mid1);
    assert(mid1.drop_last() =~= mid);
    if c.len() % 2 == 1 {
        let b1 = body.push(Ins::Push(c.last()));
        assert(all =~= b1.push(Ins::Op(scripts::OP_2DROP)));
        lemma_run_push(body, Ins::Push(c.last()), stack);
        lemma_run_push(b1, Ins::Op(scripts::OP_2DROP), stack);
        assert(mid1.push(c.last()).drop_last().drop_last() =~= mid);
        assert forall|j: int| l.len() < j < all.len() implies (#[trigger] run(
            all.take(j),
            stack,
        ) is Some && mid.len() + 1 <= run(all.take(j), stack)->Some_0.len() <= mid.len() + 3) by {
            if j <= body.len() {
                assert(all.take(j) =~= body.take(j));
            } else {
                assert(all.take(j) =~= b1);
            }
        }
    } else {
        assert(all =~= body.push(Ins::Op(scripts::OP_DROP)));
        lemma_run_push(body, Ins::Op(scripts::OP_DROP), stack);
        assert forall|j: int| l.len() < j < all.len() implies (#[trigger] run(
            all.take(j),
            stack,
        ) is Some && mid.len() + 1 <= run(all.take(j), stack)->Some_0.len() <= mid.len() + 3) by {
            assert(all.take(j) =~= body.take(j));
        }
    }
}

/// The leaf that anyone can spend leaves exactly one element, a one, on an empty stack.
pub proof fn law_open_leaf_stack(data: Seq<u8>)
    ensures
        run(tapscript::auth_leaf(data, Auth::Anyone), Seq::empty()) == Some(seq![seq![1u8]]),
{
    law_violation_leaf_stack(data, Violate::Nothing);
    assert(tapscript::auth_leaf(data, Auth::Anyone) =~= tapscript::violation_leaf(data, Violate::Nothing));
}

/// Behind `<reveal key> OP_CHECKSIG`, the signed leaf is just the envelope: what the check left on
/// the stack is what the leaf leaves.
pub proof fn law_checksig_leaf_stack(data: Seq<u8>, after_check: Seq<Seq<u8>>)
    ensures
        tapscript::auth_leaf(data, Auth::Checksig)[0] == Ins::Push(taproot_spend::reveal_key()),
        tapscript::auth_leaf(data, Auth::Checksig)[1] == Ins::Op(scripts::OP_CHECKSIG),
        run(tapscript::auth_leaf(data, Auth::Checksig).skip(2), after_check) == Some(after_check),
{
    law_envelope_is_depth_neutral(data, after_check);
    assert(tapscript::auth_leaf(data, Auth::Checksig).skip(2) =~= tapscript::envelope(data));
}

/// Every violating leaf that is not unconditionally valid leaves exactly one element, a one, on an
/// empty stack, so a node that does not enforce the broken rule accepts it.
pub proof fn law_violation_leaf_stack(data: Seq<u8>, violate: Violate)
    requires
        violate != Violate::OpSuccess,
    ensures
        run(tapscript::violation_leaf(data, violate), Seq::empty()) == Some(seq![seq![1u8]]),
{
    let none = Seq::<Seq<u8>>::empty();
    let start = Seq::<Ins>::empty();
    let pre = tapscript::violation_prefix(violate);
    if violate == Violate::PushTooBig {
        let p1 = start.push(Ins::Push(tapscript::big_push()));
        assert(pre =~= p1.push(Ins::Op(scripts::OP_DROP)));
        lemma_run_push(start, Ins::Push(tapscript::big_push()), none);
        lemma_run_push(p1, Ins::Op(scripts::OP_DROP), none);
        assert(none.push(tapscript::big_push()).drop_last() =~= none);
    }
    lemma_run_envelope(pre, data, none, none);
    let a0 = pre + tapscript::envelope(data);
    let a1 = a0.push(Ins::Op(scripts::OP_PUSHNUM_1));
    let one = seq![seq![1u8]];
    lemma_run_push(a0, Ins::Op(scripts::OP_PUSHNUM_1), none);
    assert(none.push(seq![1u8]) =~= one);
    if violate == Violate::OpIf {
        let a2 = a1.push(Ins::Op(scripts::OP_IF));
        let a3 = a2.push(Ins::Op(scripts::OP_PUSHNUM_1));
        let a4 = a3.push(Ins::Op(scripts::OP_ENDIF));
        lemma_run_push(a1, Ins::Op(scripts::OP_IF), none);
        lemma_run_push(a2, Ins::Op(scripts::OP_PUSHNUM_1), none);
        lemma_run_push(a3, Ins::Op(scripts::OP_ENDIF), none);
        assert(one.drop_last() =~= none);
        assert(tapscript::violation_leaf(data, violate) =~= a4);
    } else {
        assert(tapscript::violation_leaf(data, violate) =~= a1);
    }
}

} // verus!
