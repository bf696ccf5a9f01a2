use vstd::prelude::*;
use crate::error::Error;
use crate::loops::{
    closes, encloses, ends_paired, is_loop, jump_depth, jump_marks, lemma_closed_stays_closed,
    lemma_closer_found, lemma_closer_none, lemma_closes_iff_encloses, lemma_closes_unique,
    lemma_jump_depth_agree, lemma_left_means_closed, lemma_marks_agree, lemma_pending_agree,
    lemma_pending_members, loops_are_balanced, paired, pending, resolve, same_bracket,
    targets_in_range, well_nested,
};
use crate::opcode::{balanced, depth, has_unmatched_end, Opcode};

verus! {

/// One instruction of a compiled program.
#[derive(Clone, Copy, Debug, PartialEq, Eq, Structural)]
pub enum IR {
    /// Move the data pointer right by the count.
    SHR(u32),
    /// Move the data pointer left by the count, stopping at cell 0.
    SHL(u32),
    /// Add the count to the current cell, modulo 256.
    ADD(u8),
    /// Subtract the count from the current cell, modulo 256.
    SUB(u8),
    /// Write the current cell.
    PUTCHAR,
    /// Read one byte into the current cell.
    GETCHAR,
    /// Loop start: continue after the instruction at the target if the
    /// current cell is zero.
    JIZ(u32),
    /// Loop end: continue after the instruction at the target if the current
    /// cell is not zero.
    JNZ(u32),
}

/// A compiled program.
pub struct Code {
    /// The instructions, in the order in which they are executed.
    pub instrs: Vec<IR>,
}

/// The last instruction of `code`, if there is one.
pub open spec fn last_of(code: Seq<IR>) -> Option<IR> {
    if code.len() > 0 {
        Some(code.last())
    } else {
        None
    }
}

/// `code` with its last instruction replaced.
pub open spec fn replace_last(code: Seq<IR>, instr: IR) -> Seq<IR> {
    code.update(code.len() - 1, instr)
}

/// The instruction list after one more symbol.
///
/// A move, an increment or a decrement joins the run that ends the list if
/// that run is of its own kind, and starts a new run of one otherwise. The
/// counts of increments and decrements wrap at 256. Input, output and the two
/// jumps are always appended; a jump is appended with target 0.
pub open spec fn absorb(code: Seq<IR>, op: Opcode) -> Seq<IR> {
    match op {
        Opcode::SHR => match last_of(code) {
            Some(IR::SHR(n)) => replace_last(code, IR::SHR((n + 1) as u32)),
            _ => code.push(IR::SHR(1)),
        },
        Opcode::SHL => match last_of(code) {
            Some(IR::SHL(n)) => replace_last(code, IR::SHL((n + 1) as u32)),
            _ => code.push(IR::SHL(1)),
        },
        Opcode::ADD => match last_of(code) {
            Some(IR::ADD(n)) => replace_last(code, IR::ADD(((n + 1) % 256) as u8)),
            _ => code.push(IR::ADD(1)),
        },
        Opcode::SUB => match last_of(code) {
            Some(IR::SUB(n)) => replace_last(code, IR::SUB(((n + 1) % 256) as u8)),
            _ => code.push(IR::SUB(1)),
        },
        Opcode::PUTCHAR => code.push(IR::PUTCHAR),
        Opcode::GETCHAR => code.push(IR::GETCHAR),
        Opcode::LB => code.push(IR::JIZ(0)),
        Opcode::RB => code.push(IR::JNZ(0)),
    }
}

/// The run-length folded instruction list of `syms`, every jump with target 0.
pub open spec fn fold(syms: Seq<Opcode>) -> Seq<IR>
    decreases syms.len(),
{
    if syms.len() == 0 {
        Seq::empty()
    } else {
        absorb(fold(syms.drop_last()), syms.last())
    }
}

/// The compiled form of `syms`: runs folded, then jumps resolved.
pub open spec fn compile(syms: Seq<Opcode>) -> Seq<IR> {
    resolve(fold(syms))
}

/// The loop starts (`true`) and loop ends (`false`) of `syms`, in order.
pub open spec fn loop_marks(syms: Seq<Opcode>) -> Seq<bool>
    decreases syms.len(),
{
    if syms.len() == 0 {
        Seq::empty()
    } else {
        match syms.last() {
            Opcode::LB => loop_marks(syms.drop_last()).push(true),
            Opcode::RB => loop_marks(syms.drop_last()).push(false),
            _ => loop_marks(syms.drop_last()),
        }
    }
}

/// What the compiler knows of instruction `i` while it builds the list:
/// `sk` is the folded list of the symbols read so far, `bound` their number.
spec fn entry_linked(instrs: Seq<IR>, sk: Seq<IR>, bound: int, i: int) -> bool {
    match instrs[i] {
        IR::SHR(n) => sk[i] == instrs[i] && n <= bound,
        IR::SHL(n) => sk[i] == instrs[i] && n <= bound,
        IR::JIZ(t) => sk[i] is JIZ && if pending(sk, sk.len() as int).contains(i) {
            t == 0
        } else {
            closes(sk, i, t as int)
        },
        IR::JNZ(t) => sk[i] is JNZ && pending(sk, i).len() > 0 && t == pending(sk, i).last(),
        _ => sk[i] == instrs[i],
    }
}

/// The compiler's state after the symbols `syms`: the list agrees with the
/// folded symbols, closed loops are resolved, and the stack holds the loop
/// starts that are still open.
spec fn linked(instrs: Seq<IR>, stack: Seq<u32>, syms: Seq<Opcode>) -> bool {
    let sk = fold(syms);
    let open = pending(sk, sk.len() as int);
    &&& instrs.len() == sk.len()
    &&& sk.len() <= syms.len()
    &&& forall|i: int|
        0 <= i < instrs.len() ==> #[trigger] entry_linked(instrs, sk, syms.len() as int, i)
    &&& stack.len() == open.len()
    &&& open.len() == depth(syms)
    &&& forall|k: int| 0 <= k < stack.len() ==> #[trigger] stack[k] == open[k]
}

/// One more symbol is absorbed into the folded list and adds its change to
/// the depth.
proof fn lemma_fold_push(syms: Seq<Opcode>, op: Opcode)
    ensures
        fold(syms.push(op)) == absorb(fold(syms), op),
        depth(syms.push(op)) == depth(syms) + crate::opcode::depth_change(op),
{
    assert(syms.push(op).drop_last() =~= syms);
}

/// The state stays linked over a symbol that is no loop start and no loop
/// end.
proof fn lemma_extend_plain(instrs: Seq<IR>, stack: Seq<u32>, syms: Seq<Opcode>, op: Opcode)
    requires
        linked(instrs, stack, syms),
        op != Opcode::LB,
        op != Opcode::RB,
        syms.len() < u32::MAX,
    ensures
        linked(absorb(instrs, op), stack, syms.push(op)),
{
    lemma_fold_push(syms, op);
    let sk = fold(syms);
    let sk2 = absorb(sk, op);
    let instrs2 = absorb(instrs, op);
    let len = sk.len() as int;
    if len > 0 {
        assert(entry_linked(instrs, sk, syms.len() as int, len - 1));
    }
    assert forall|k: int| 0 <= k <= len implies #[trigger] pending(sk2, k) == pending(sk, k) by {
        lemma_pending_agree(sk2, sk, k);
    }
    assert(pending(sk2, len) == pending(sk, len));
    if sk2.len() == len + 1 {
        assert(!(sk2[len] is JIZ) && !(sk2[len] is JNZ));
        assert(pending(sk2, len + 1) == pending(sk2, len));
    }
    assert(pending(sk2, sk2.len() as int) == pending(sk, len));
    assert forall|i: int| 0 <= i < instrs2.len() implies #[trigger] entry_linked(
        instrs2,
        sk2,
        (syms.len() + 1) as int,
        i,
    ) by {
        if i < len {
            assert(entry_linked(instrs, sk, syms.len() as int, i));
        }
    }
}

/// The state stays linked over a loop start, which is pushed on the stack.
proof fn lemma_extend_open(instrs: Seq<IR>, stack: Seq<u32>, syms: Seq<Opcode>)
    requires
        linked(instrs, stack, syms),
        syms.len() < u32::MAX,
    ensures
        linked(
            instrs.push(IR::JIZ(0)),
            stack.push(instrs.len() as u32),
            syms.push(Opcode::LB),
        ),
{
    lemma_fold_push(syms, Opcode::LB);
    let sk = fold(syms);
    let sk2 = sk.push(IR::JIZ(0));
    let instrs2 = instrs.push(IR::JIZ(0));
    let len = sk.len() as int;
    assert forall|k: int| 0 <= k <= len implies #[trigger] pending(sk2, k) == pending(sk, k) by {
        lemma_pending_agree(sk2, sk, k);
    }
    let open = pending(sk, len);
    let open2 = pending(sk2, len + 1);
    assert(pending(sk2, len) == open);
    assert(open2 == open.push(len));
    lemma_pending_members(sk, len);
    assert forall|i: int| 0 <= i < instrs2.len() implies #[trigger] entry_linked(
        instrs2,
        sk2,
        (syms.len() + 1) as int,
        i,
    ) by {
        if i < len {
            assert(entry_linked(instrs, sk, syms.len() as int, i));
            if open.contains(i) {
                let a = choose|a: int| 0 <= a < open.len() && open[a] == i;
                assert(open2[a] == i);
            }
            if open2.contains(i) {
                let a = choose|a: int| 0 <= a < open2.len() && open2[a] == i;
                assert(open[a] == i);
            }
        } else {
            assert(open2[open2.len() - 1] == len);
        }
    }
}

/// The state stays linked over a loop end that finds a loop start open: the
/// loop start leaves the stack and the two jumps get each other's index.
proof fn lemma_extend_close(instrs: Seq<IR>, stack: Seq<u32>, syms: Seq<Opcode>)
    requires
        linked(instrs, stack, syms),
        syms.len() < u32::MAX,
        stack.len() > 0,
    ensures
        stack.last() < instrs.len(),
        linked(
            instrs.push(IR::JNZ(stack.last())).update(
                stack.last() as int,
                IR::JIZ(instrs.len() as u32),
            ),
            stack.drop_last(),
            syms.push(Opcode::RB),
        ),
{
    lemma_fold_push(syms, Opcode::RB);
    let sk = fold(syms);
    let sk2 = sk.push(IR::JNZ(0));
    let len = sk.len() as int;
    let j = stack.last() as int;
    let instrs2 = instrs.push(IR::JNZ(stack.last())).update(j, IR::JIZ(len as u32));
    assert forall|k: int| 0 <= k <= len implies #[trigger] pending(sk2, k) == pending(sk, k) by {
        lemma_pending_agree(sk2, sk, k);
    }
    let open = pending(sk, len);
    let open2 = pending(sk2, len + 1);
    assert(pending(sk2, len) == open);
    assert(open2 == open.drop_last());
    lemma_pending_members(sk, len);
    assert(stack[stack.len() - 1] == open[open.len() - 1]);
    assert(!open2.contains(j)) by {
        if open2.contains(j) {
            let a = choose|a: int| 0 <= a < open2.len() && open2[a] == j;
            assert(open[a] < open[open.len() - 1]);
        }
    }
    assert(closes(sk2, j, len));
    assert forall|i: int| 0 <= i < instrs2.len() implies #[trigger] entry_linked(
        instrs2,
        sk2,
        (syms.len() + 1) as int,
        i,
    ) by {
        if i == j {
        } else if i < len {
            assert(entry_linked(instrs, sk, syms.len() as int, i));
            if open.contains(i) {
                let a = choose|a: int| 0 <= a < open.len() && open[a] == i;
                assert(open2[a] == i);
            }
            if open2.contains(i) {
                let a = choose|a: int| 0 <= a < open2.len() && open2[a] == i;
                assert(open[a] == i);
            }
        } else {
        }
    }
    assert forall|k: int| 0 <= k < stack.drop_last().len() implies #[trigger] stack.drop_last()[k]
        == open2[k] by {
        assert(stack[k] == open[k]);
    }
}

/// In a linked state, jumps come in loops that do not cross; where no loop
/// start is open, every jump is in a loop.
proof fn lemma_linked_pairs(instrs: Seq<IR>, stack: Seq<u32>, syms: Seq<Opcode>)
    requires
        linked(instrs, stack, syms),
        syms.len() <= u32::MAX,
    ensures
        ends_paired(instrs),
        well_nested(instrs),
        loops_are_balanced(instrs),
        depth(syms) == 0 ==> paired(instrs),
{
    let sk = fold(syms);
    let len = sk.len() as int;
    let bound = syms.len() as int;
    assert forall|i: int| 0 <= i < len implies same_bracket(#[trigger] instrs[i], sk[i]) by {
        assert(entry_linked(instrs, sk, bound, i));
    }
    assert forall|i: int, j: int| encloses(instrs, i, j) <==> encloses(sk, i, j) by {
        if 0 <= i < j < len {
            assert(same_bracket(instrs[i], sk[i]));
            assert(same_bracket(instrs[j], sk[j]));
            lemma_jump_depth_agree(instrs, sk, i + 1, j);
            assert forall|k: int|
                #![trigger jump_depth(instrs, i + 1, k)]
                #![trigger jump_depth(sk, i + 1, k)]
                i < k <= j implies jump_depth(instrs, i + 1, k) == jump_depth(sk, i + 1, k) by {
                lemma_jump_depth_agree(instrs, sk, i + 1, k);
            }
        }
    }
    assert forall|i: int, j: int| closes(sk, i, j) <==> encloses(sk, i, j) by {
        lemma_closes_iff_encloses(sk, i, j);
    }
    assert forall|i: int, j: int| 0 <= i < len && 0 <= j < len && closes(sk, i, j) implies is_loop(
        instrs,
        i,
        j,
    ) by {
        assert(entry_linked(instrs, sk, bound, i));
        assert(entry_linked(instrs, sk, bound, j));
        lemma_pending_members(sk, j);
        lemma_closed_stays_closed(sk, i, j, len);
        let t = instrs[i]->JIZ_0;
        lemma_closes_unique(sk, i, j, t as int);
    }
    assert forall|i: int, j: int| is_loop(instrs, i, j) implies closes(sk, i, j) by {
        assert(entry_linked(instrs, sk, bound, j));
    }
    assert forall|i: int| 0 <= i < len implies match #[trigger] instrs[i] {
        IR::JIZ(t) => is_loop(instrs, i, t as int) || (t == 0 && depth(syms) > 0),
        IR::JNZ(t) => is_loop(instrs, t as int, i),
        _ => true,
    } by {
        assert(entry_linked(instrs, sk, bound, i));
        match instrs[i] {
            IR::JNZ(t) => {
                lemma_pending_members(sk, i);
                assert(closes(sk, t as int, i));
            },
            _ => {},
        }
    }
    assert forall|i: int, j: int, k: int, l: int|
        #[trigger] is_loop(instrs, i, j) && #[trigger] is_loop(instrs, k, l) && i < k implies j < k
        || l < j by {
        if k < j && j < l {
            assert(closes(sk, i, j));
            assert(closes(sk, k, l));
            lemma_pending_members(sk, j);
            let open = pending(sk, j);
            if open.contains(k) {
                let a = choose|a: int| 0 <= a < open.len() && open[a] == k;
                assert(open[a] <= open[open.len() - 1]);
            }
            assert(entry_linked(instrs, sk, bound, k));
            lemma_left_means_closed(sk, k, j);
            let l2 = choose|l2: int| k < l2 < j && closes(sk, k, l2);
            lemma_closes_unique(sk, k, l, l2);
        }
    }
}

/// Symbols with no unmatched loop end lead the compiler to a linked state.
proof fn lemma_linked_exists(syms: Seq<Opcode>) -> (r: (Seq<IR>, Seq<u32>))
    requires
        !has_unmatched_end(syms),
        syms.len() <= u32::MAX,
    ensures
        linked(r.0, r.1, syms),
    decreases syms.len(),
{
    if syms.len() == 0 {
        (Seq::empty(), Seq::empty())
    } else {
        let rest = syms.drop_last();
        let op = syms.last();
        assert(syms =~= rest.push(op));
        assert forall|k: int| 0 <= k <= rest.len() implies depth(#[trigger] rest.take(k)) >= 0 by {
            assert(rest.take(k) =~= syms.take(k));
        }
        let (instrs, stack) = lemma_linked_exists(rest);
        match op {
            Opcode::LB => {
                lemma_extend_open(instrs, stack, rest);
                (instrs.push(IR::JIZ(0)), stack.push(instrs.len() as u32))
            },
            Opcode::RB => {
                assert(syms.take(syms.len() as int) =~= syms);
                lemma_fold_push(rest, op);
                lemma_extend_close(instrs, stack, rest);
                (
                    instrs.push(IR::JNZ(stack.last())).update(
                        stack.last() as int,
                        IR::JIZ(instrs.len() as u32),
                    ),
                    stack.drop_last(),
                )
            },
            _ => {
                lemma_extend_plain(instrs, stack, rest, op);
                (absorb(instrs, op), stack)
            },
        }
    }
}

/// Compiled jumps come in loops. Of symbols with no unmatched loop end,
/// every compiled loop end and its loop start hold each other's index, a loop
/// start that holds no loop end's index has target 0, no two loops cross, and
/// the loops are the balanced stretches and no others. Of balanced symbols,
/// every jump is one end of a loop.
pub proof fn theorem_jumps_paired(syms: Seq<Opcode>)
    requires
        !has_unmatched_end(syms),
        syms.len() <= u32::MAX,
    ensures
        targets_in_range(compile(syms)),
        ends_paired(compile(syms)),
        well_nested(compile(syms)),
        loops_are_balanced(compile(syms)),
        balanced(syms) ==> paired(compile(syms)),
{
    let (instrs, stack) = lemma_linked_exists(syms);
    lemma_linked_done(instrs, stack, syms);
    lemma_linked_pairs(instrs, stack, syms);
}

/// The compiled jumps are the loop starts and loop ends of the source, one
/// for one and in the same order: folding joins no jump to anything.
pub proof fn theorem_jumps_follow_source(syms: Seq<Opcode>)
    ensures
        jump_marks(fold(syms)) == loop_marks(syms),
        jump_marks(compile(syms)) == loop_marks(syms),
    decreases syms.len(),
{
    lemma_marks_agree(resolve(fold(syms)), fold(syms));
    if syms.len() > 0 {
        let rest = fold(syms.drop_last());
        let all = fold(syms);
        theorem_jumps_follow_source(syms.drop_last());
        if all.len() == rest.len() {
            assert(all.drop_last() =~= rest.drop_last());
            assert(rest.len() > 0);
        } else {
            assert(all.drop_last() =~= rest);
        }
    }
}

/// A linked state at the end of the symbols holds their compiled form.
proof fn lemma_linked_done(instrs: Seq<IR>, stack: Seq<u32>, syms: Seq<Opcode>)
    requires
        linked(instrs, stack, syms),
        syms.len() <= u32::MAX,
    ensures
        instrs == compile(syms),
        targets_in_range(instrs),
{
    let sk = fold(syms);
    let len = sk.len() as int;
    let done = resolve(sk);
    assert forall|i: int| 0 <= i < len implies instrs[i] == done[i] && match instrs[i] {
        IR::JIZ(t) => t < len,
        IR::JNZ(t) => t < len,
        _ => true,
    } by {
        assert(entry_linked(instrs, sk, syms.len() as int, i));
        match instrs[i] {
            IR::JIZ(t) => {
                if pending(sk, len).contains(i) {
                    lemma_closer_none(sk, i, i + 1);
                } else {
                    lemma_closer_found(sk, i, t as int, i + 1);
                }
            },
            IR::JNZ(t) => {
                lemma_pending_members(sk, i);
            },
            _ => {},
        }
    }
    assert(instrs =~= done);
}

impl Code {
    /// Every jump target is the index of an instruction of the program.
    pub open spec fn wf(&self) -> bool {
        targets_in_range(self.instrs@)
    }

    /// Whether every jump target is the index of an instruction: what the
    /// interpreter asks of a program that was put together by hand.
    pub fn is_wf(&self) -> (r: bool)
        ensures
            r == self.wf(),
    {
        let len = self.instrs.len();
        let mut i: usize = 0;
        while i < len
            invariant
                i <= len,
                len == self.instrs@.len(),
                forall|k: int|
                    0 <= k < i ==> match #[trigger] self.instrs@[k] {
                        IR::JIZ(t) => t < len,
                        IR::JNZ(t) => t < len,
                        _ => true,
                    },
            decreases len - i,
        {
            let in_range = match self.instrs[i] {
                IR::JIZ(t) => (t as usize) < len,
                IR::JNZ(t) => (t as usize) < len,
                _ => true,
            };
            if !in_range {
                return false;
            }
            i += 1;
        }
        true
    }

    /// Compiles symbols into instructions.
    ///
    /// Runs of moves, increments and decrements are folded into one
    /// instruction each. A loop end gets the index of the loop start that it
    /// closes as its target, and that loop start gets the index of the loop
    /// end. A loop start that is never closed keeps target 0. A loop end with
    /// no loop start left open is refused with `UnmatchedLoopEnd`.
    ///
    /// Counts and targets are 32 bits wide, so the symbols must not number
    /// more than `u32::MAX`.
    pub fn from(data: Vec<Opcode>) -> (r: Result<Code, Error>)
        requires
            data@.len() <= u32::MAX,
        ensures
            r is Err <==> has_unmatched_end(data@),
            r matches Err(e) ==> e == Error::UnmatchedLoopEnd,
            r matches Ok(code) ==> code.instrs@ == compile(data@) && code.wf(),
            r matches Ok(code) ==> code.instrs@.len() <= data@.len(),
            r matches Ok(code) ==> ends_paired(code.instrs@) && well_nested(code.instrs@)
                && loops_are_balanced(code.instrs@),
            r matches Ok(code) ==> (balanced(data@) ==> paired(code.instrs@)),
    {
        let mut instrs: Vec<IR> = Vec::new();
        let mut jstack: Vec<u32> = Vec::new();
        let mut n: usize = 0;
        while n < data.len()
            invariant
                n <= data.len() <= u32::MAX,
                linked(instrs@, jstack@, data@.take(n as int)),
                forall|k: int| 0 <= k <= n ==> depth(#[trigger] data@.take(k)) >= 0,
            decreases data.len() - n,
        {
            let ghost syms = data@.take(n as int);
            let ghost before = instrs@;
            let e = data[n];
            assert(data@.take(n + 1) =~= syms.push(e));
            let len = instrs.len();
            proof {
                if len > 0 {
                    assert(entry_linked(before, fold(syms), n as int, len - 1));
                }
                lemma_fold_push(syms, e);
            }
            match e {
                Opcode::SHR => {
                    if len > 0 {
                        match instrs[len - 1] {
                            IR::SHR(x) => instrs.set(len - 1, IR::SHR(x + 1)),
                            _ => instrs.push(IR::SHR(1)),
                        }
                    } else {
                        instrs.push(IR::SHR(1));
                    }
                    proof {
                        assert(instrs@ =~= absorb(before, e));
                        lemma_extend_plain(before, jstack@, syms, e);
                    }
                },
                Opcode::SHL => {
                    if len > 0 {
                        match instrs[len - 1] {
                            IR::SHL(x) => instrs.set(len - 1, IR::SHL(x + 1)),
                            _ => instrs.push(IR::SHL(1)),
                        }
                    } else {
                        instrs.push(IR::SHL(1));
                    }
                    proof {
                        assert(instrs@ =~= absorb(before, e));
                        lemma_extend_plain(before, jstack@, syms, e);
                    }
                },
                Opcode::ADD => {
                    if len > 0 {
                        match instrs[len - 1] {
                            IR::ADD(x) => instrs.set(len - 1, IR::ADD(x.wrapping_add(1))),
                            _ => instrs.push(IR::ADD(1)),
                        }
                    } else {
                        instrs.push(IR::ADD(1));
                    }
                    proof {
                        assert(instrs@ =~= absorb(before, e));
                        lemma_extend_plain(before, jstack@, syms, e);
                    }
                },
                Opcode::SUB => {
                    if len > 0 {
                        match instrs[len - 1] {
                            IR::SUB(x) => instrs.set(len - 1, IR::SUB(x.wrapping_add(1))),
                            _ => instrs.push(IR::SUB(1)),
                        }
                    } else {
                        instrs.push(IR::SUB(1));
                    }
                    proof {
                        assert(instrs@ =~= absorb(before, e));
                        lemma_extend_plain(before, jstack@, syms, e);
                    }
                },
                Opcode::PUTCHAR => {
                    instrs.push(IR::PUTCHAR);
                    proof {
                        lemma_extend_plain(before, jstack@, syms, e);
                    }
                },
                Opcode::GETCHAR => {
                    instrs.push(IR::GETCHAR);
                    proof {
                        lemma_extend_plain(before, jstack@, syms, e);
                    }
                },
                Opcode::LB => {
                    proof {
                        lemma_extend_open(before, jstack@, syms);
                    }
                    instrs.push(IR::JIZ(0));
                    jstack.push(len as u32);
                },
                Opcode::RB => {
                    let ghost stack = jstack@;
                    match jstack.pop() {
                        None => {
                            assert(depth(data@.take(n + 1)) < 0);
                            return Err(Error::UnmatchedLoopEnd);
                        },
                        Some(j) => {
                            proof {
                                lemma_extend_close(before, stack, syms);
                            }
                            instrs.push(IR::JNZ(j));
                            instrs.set(j as usize, IR::JIZ(len as u32));
                        },
                    }
                },
            }
            n += 1;
        }
        proof {
            assert(data@.take(n as int) =~= data@);
            lemma_linked_done(instrs@, jstack@, data@);
            lemma_linked_pairs(instrs@, jstack@, data@);
        }
        Ok(Code { instrs })
    }
}

} // verus!
