use vstd::prelude::*;
use crate::ir::IR;

verus! {

/// The loop starts among `code[0..k]` that no loop end among `code[0..k]` has
/// closed, by index, outermost first.
pub open spec fn pending(code: Seq<IR>, k: int) -> Seq<int>
    decreases k,
{
    if k <= 0 {
        Seq::empty()
    } else {
        let before = pending(code, k - 1);
        match code[k - 1] {
            IR::JIZ(_) => before.push(k - 1),
            IR::JNZ(_) => if before.len() > 0 {
                before.drop_last()
            } else {
                before
            },
            _ => before,
        }
    }
}

/// The loop end at `j` closes the loop start at `i`: `i` is the innermost
/// loop start still open when `j` is reached.
pub open spec fn closes(code: Seq<IR>, i: int, j: int) -> bool {
    &&& 0 <= i < j < code.len()
    &&& code[j] is JNZ
    &&& pending(code, j).len() > 0
    &&& pending(code, j).last() == i
}

/// Index of the loop start that the loop end at `j` closes.
pub open spec fn opener(code: Seq<IR>, j: int) -> int {
    pending(code, j).last()
}

/// Index of the first loop end at or after `j` that closes the loop start at
/// `i`; 0 where there is none.
pub open spec fn closer_from(code: Seq<IR>, i: int, j: int) -> int
    decreases code.len() - j,
{
    if j >= code.len() {
        0
    } else if closes(code, i, j) {
        j
    } else {
        closer_from(code, i, j + 1)
    }
}

/// Index of the loop end that closes the loop start at `i`; 0 where the loop
/// start stays open.
pub open spec fn closer(code: Seq<IR>, i: int) -> int {
    closer_from(code, i, i + 1)
}

/// `code` with each jump's target set to the index of its partner.
pub open spec fn resolve(code: Seq<IR>) -> Seq<IR> {
    Seq::new(
        code.len(),
        |i: int|
            match code[i] {
                IR::JIZ(_) => IR::JIZ(closer(code, i) as u32),
                IR::JNZ(_) => IR::JNZ(opener(code, i) as u32),
                other => other,
            },
    )
}

/// Every jump target is the index of an instruction of `code`.
pub open spec fn targets_in_range(code: Seq<IR>) -> bool {
    forall|i: int|
        0 <= i < code.len() ==> match #[trigger] code[i] {
            IR::JIZ(t) => t < code.len(),
            IR::JNZ(t) => t < code.len(),
            _ => true,
        }
}

/// The loop starts (`true`) and loop ends (`false`) of `code`, in order.
pub open spec fn jump_marks(code: Seq<IR>) -> Seq<bool>
    decreases code.len(),
{
    if code.len() == 0 {
        Seq::empty()
    } else {
        match code.last() {
            IR::JIZ(_) => jump_marks(code.drop_last()).push(true),
            IR::JNZ(_) => jump_marks(code.drop_last()).push(false),
            _ => jump_marks(code.drop_last()),
        }
    }
}

/// The jumps at `i` and `j` are the two ends of one loop: a loop start at
/// `i`, a loop end after it at `j`, each with the other's index as target.
pub open spec fn is_loop(code: Seq<IR>, i: int, j: int) -> bool {
    &&& 0 <= i < j < code.len()
    &&& code[i] == IR::JIZ(j as u32)
    &&& code[j] == IR::JNZ(i as u32)
}

/// Every loop end is one end of a loop, and every loop start is one end of a
/// loop or, left open, has target 0.
pub open spec fn ends_paired(code: Seq<IR>) -> bool {
    forall|i: int|
        0 <= i < code.len() ==> match #[trigger] code[i] {
            IR::JIZ(t) => is_loop(code, i, t as int) || t == 0,
            IR::JNZ(t) => is_loop(code, t as int, i),
            _ => true,
        }
}

/// Every jump is one end of a loop.
pub open spec fn paired(code: Seq<IR>) -> bool {
    forall|i: int|
        0 <= i < code.len() ==> match #[trigger] code[i] {
            IR::JIZ(t) => is_loop(code, i, t as int),
            IR::JNZ(t) => is_loop(code, t as int, i),
            _ => true,
        }
}

/// No two loops cross: of two loops, the later one lies behind the earlier
/// one or inside it.
pub open spec fn well_nested(code: Seq<IR>) -> bool {
    forall|i: int, j: int, k: int, l: int|
        #[trigger] is_loop(code, i, j) && #[trigger] is_loop(code, k, l) && i < k ==> j < k || l
            < j
}

/// Loop starts minus loop ends among `code[from..to]`.
pub open spec fn jump_depth(code: Seq<IR>, from: int, to: int) -> int
    decreases to - from,
{
    if to <= from {
        0
    } else {
        jump_depth(code, from, to - 1) + match code[to - 1] {
            IR::JIZ(_) => 1int,
            IR::JNZ(_) => -1int,
            _ => 0int,
        }
    }
}

/// A loop start at `i` and a loop end at `j` enclose a balanced stretch:
/// between them no loop end comes without a loop start of the stretch to
/// close, and no loop start of the stretch is left open.
pub open spec fn encloses(code: Seq<IR>, i: int, j: int) -> bool {
    &&& 0 <= i < j < code.len()
    &&& code[i] is JIZ
    &&& code[j] is JNZ
    &&& jump_depth(code, i + 1, j) == 0
    &&& forall|k: int| i < k <= j ==> #[trigger] jump_depth(code, i + 1, k) >= 0
}

/// The loops of `code` are its balanced stretches: two jumps hold each
/// other's index exactly where they enclose a balanced stretch.
pub open spec fn loops_are_balanced(code: Seq<IR>) -> bool {
    forall|i: int, j: int| #[trigger] is_loop(code, i, j) <==> encloses(code, i, j)
}

/// Two instructions are both loop starts, both loop ends, or both neither.
pub open spec fn same_bracket(a: IR, b: IR) -> bool {
    (a is JIZ <==> b is JIZ) && (a is JNZ <==> b is JNZ)
}

/// The open loop starts of a prefix depend only on where its jumps stand.
pub proof fn lemma_pending_agree(a: Seq<IR>, b: Seq<IR>, k: int)
    requires
        0 <= k <= a.len(),
        k <= b.len(),
        forall|m: int| 0 <= m < k ==> same_bracket(#[trigger] a[m], b[m]),
    ensures
        pending(a, k) == pending(b, k),
    decreases k,
{
    if k > 0 {
        lemma_pending_agree(a, b, k - 1);
        assert(same_bracket(a[k - 1], b[k - 1]));
    }
}

/// The open loop starts are indices of loop starts of the prefix, in
/// increasing order.
pub proof fn lemma_pending_members(code: Seq<IR>, k: int)
    requires
        0 <= k <= code.len(),
    ensures
        pending(code, k).len() <= k,
        forall|a: int|
            0 <= a < pending(code, k).len() ==> {
                &&& 0 <= #[trigger] pending(code, k)[a] < k
                &&& code[pending(code, k)[a]] is JIZ
            },
        forall|a: int, b: int|
            0 <= a < b < pending(code, k).len() ==> pending(code, k)[a] < pending(code, k)[b],
    decreases k,
{
    if k > 0 {
        lemma_pending_members(code, k - 1);
    }
}

/// Once a loop end has closed a loop start, that loop start is never open
/// again.
pub proof fn lemma_closed_stays_closed(code: Seq<IR>, i: int, j: int, k: int)
    requires
        closes(code, i, j),
        j < k <= code.len(),
    ensures
        !pending(code, k).contains(i),
    decreases k,
{
    lemma_pending_members(code, k - 1);
    if k == j + 1 {
    } else {
        lemma_closed_stays_closed(code, i, j, k - 1);
        let before = pending(code, k - 1);
        let after = pending(code, k);
        if after.contains(i) {
            let a = choose|a: int| 0 <= a < after.len() && after[a] == i;
            match code[k - 1] {
                IR::JIZ(_) => {
                    assert(a < before.len());
                    assert(before[a] == i);
                },
                _ => {
                    assert(before[a] == i);
                },
            }
        }
    }
}

/// A loop start is closed by at most one loop end.
pub proof fn lemma_closes_unique(code: Seq<IR>, i: int, j1: int, j2: int)
    requires
        closes(code, i, j1),
        closes(code, i, j2),
    ensures
        j1 == j2,
{
    if j1 < j2 {
        lemma_closed_stays_closed(code, i, j1, j2);
        assert(pending(code, j2)[pending(code, j2).len() - 1] == i);
    } else if j2 < j1 {
        lemma_closed_stays_closed(code, i, j2, j1);
        assert(pending(code, j1)[pending(code, j1).len() - 1] == i);
    }
}

/// The search for the loop end of `i` finds the loop end that closes it.
pub proof fn lemma_closer_found(code: Seq<IR>, i: int, j: int, from: int)
    requires
        closes(code, i, j),
        i < from <= j,
    ensures
        closer_from(code, i, from) == j,
    decreases j - from,
{
    if from < j {
        if closes(code, i, from) {
            lemma_closes_unique(code, i, from, j);
        }
        lemma_closer_found(code, i, j, from + 1);
    }
}

/// The search for the loop end of a loop start that stays open finds none.
pub proof fn lemma_closer_none(code: Seq<IR>, i: int, from: int)
    requires
        pending(code, code.len() as int).contains(i),
        0 <= i < from,
    ensures
        closer_from(code, i, from) == 0,
    decreases code.len() - from,
{
    if from < code.len() {
        if closes(code, i, from) {
            lemma_closed_stays_closed(code, i, from, code.len() as int);
        }
        lemma_closer_none(code, i, from + 1);
    }
}

/// A loop start that was open and is open no more was closed in between.
pub proof fn lemma_left_means_closed(code: Seq<IR>, k: int, m: int)
    requires
        0 <= k < m <= code.len(),
        code[k] is JIZ,
        !pending(code, m).contains(k),
    ensures
        exists|l: int| k < l < m && closes(code, k, l),
    decreases m,
{
    if m == k + 1 {
        let open = pending(code, m);
        assert(open[open.len() - 1] == k);
    } else {
        let before = pending(code, m - 1);
        let after = pending(code, m);
        lemma_pending_members(code, m - 1);
        if before.contains(k) {
            let a = choose|a: int| 0 <= a < before.len() && before[a] == k;
            if a < after.len() {
                assert(after[a] == k);
            }
            assert(closes(code, k, m - 1));
        } else {
            lemma_left_means_closed(code, k, m - 1);
        }
    }
}

/// Which instructions are loop starts and loop ends decides the marks.
pub proof fn lemma_marks_agree(a: Seq<IR>, b: Seq<IR>)
    requires
        a.len() == b.len(),
        forall|m: int| 0 <= m < a.len() ==> same_bracket(#[trigger] a[m], b[m]),
    ensures
        jump_marks(a) == jump_marks(b),
    decreases a.len(),
{
    if a.len() > 0 {
        assert(same_bracket(a[a.len() - 1], b[b.len() - 1]));
        lemma_marks_agree(a.drop_last(), b.drop_last());
    }
}

/// Which instructions are loop starts and loop ends decides the depth.
pub proof fn lemma_jump_depth_agree(a: Seq<IR>, b: Seq<IR>, from: int, to: int)
    requires
        0 <= from,
        to <= a.len(),
        to <= b.len(),
        forall|m: int| from <= m < to ==> same_bracket(#[trigger] a[m], b[m]),
    ensures
        jump_depth(a, from, to) == jump_depth(b, from, to),
    decreases to - from,
{
    if from < to {
        lemma_jump_depth_agree(a, b, from, to - 1);
        assert(same_bracket(a[to - 1], b[to - 1]));
    }
}

/// While the depth behind a loop start has not gone below zero, the loop
/// starts that were open at it are open still, below as many more as the
/// depth tells.
proof fn lemma_pending_inside(code: Seq<IR>, i: int, k: int)
    requires
        0 <= i < k <= code.len(),
        code[i] is JIZ,
        forall|m: int| i < m <= k ==> #[trigger] jump_depth(code, i + 1, m) >= 0,
    ensures
        pending(code, k).len() == pending(code, i + 1).len() + jump_depth(code, i + 1, k),
        pending(code, k).take(pending(code, i + 1).len() as int) == pending(code, i + 1),
    decreases k,
{
    let base = pending(code, i + 1);
    if k == i + 1 {
        assert(base.take(base.len() as int) =~= base);
    } else {
        lemma_pending_inside(code, i, k - 1);
        assert(jump_depth(code, i + 1, k - 1) >= 0);
        assert(jump_depth(code, i + 1, k) >= 0);
        assert(pending(code, k).take(base.len() as int) =~= pending(code, k - 1).take(
            base.len() as int,
        ));
    }
}

/// Between a loop start and the loop end that closes it the depth does not
/// go below zero.
proof fn lemma_inside_not_below(code: Seq<IR>, i: int, j: int, k: int)
    requires
        closes(code, i, j),
        code[i] is JIZ,
        i < k <= j,
    ensures
        forall|m: int| i < m <= k ==> #[trigger] jump_depth(code, i + 1, m) >= 0,
    decreases k,
{
    if k > i + 1 {
        lemma_inside_not_below(code, i, j, k - 1);
        lemma_pending_inside(code, i, k - 1);
        if jump_depth(code, i + 1, k) < 0 {
            assert(jump_depth(code, i + 1, k - 1) >= 0);
            let base = pending(code, i + 1);
            let open = pending(code, k - 1);
            assert(open.take(base.len() as int) =~= open);
            assert(open[open.len() - 1] == i);
            assert(closes(code, i, k - 1));
            lemma_closes_unique(code, i, k - 1, j);
        }
    }
}

/// A loop end closes a loop start exactly where the two enclose a balanced
/// stretch.
pub proof fn lemma_closes_iff_encloses(code: Seq<IR>, i: int, j: int)
    ensures
        closes(code, i, j) <==> encloses(code, i, j),
{
    if 0 <= i < j < code.len() {
        let base = pending(code, i + 1);
        let open = pending(code, j);
        if closes(code, i, j) {
            lemma_pending_members(code, j);
            assert(code[open[open.len() - 1]] is JIZ);
            lemma_inside_not_below(code, i, j, j);
            lemma_pending_inside(code, i, j);
            assert(base[base.len() - 1] == i);
            assert(open.take(base.len() as int)[base.len() - 1] == open[base.len() - 1]);
            if jump_depth(code, i + 1, j) > 0 {
                assert(open[base.len() - 1] < open[open.len() - 1]);
            }
        }
        if encloses(code, i, j) {
            lemma_pending_inside(code, i, j);
            assert(open.take(base.len() as int) =~= open);
            assert(base[base.len() - 1] == i);
        }
    }
}

} // verus!
