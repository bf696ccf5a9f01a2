use vstd::prelude::*;
use crate::error::Error;
use crate::ir::{compile, fold, IR};
use crate::loops::{resolve, targets_in_range};
use crate::opcode::Opcode;

verus! {

/// How a machine stands before its next instruction.
#[derive(Clone, Copy, Debug, PartialEq, Eq, Structural)]
pub enum Status {
    /// The next instruction can be executed.
    Running,
    /// The program counter is past the last instruction.
    Finished,
    /// The next instruction would move the data pointer past the largest
    /// tape that this platform can address.
    TapeLimit,
}

/// The state of a machine as mathematical values.
pub struct Machine {
    /// The cells of the tape.
    pub tape: Seq<u8>,
    /// The data pointer: index of the current cell.
    pub ptr: int,
    /// The program counter: index of the next instruction.
    pub pc: int,
    /// The bytes of the input stream.
    pub input: Seq<u8>,
    /// How many bytes of the input stream have been read.
    pub read: int,
    /// The bytes written to the output stream.
    pub output: Seq<u8>,
}

impl Machine {
    /// The data pointer is on the tape and the read position is within the
    /// input.
    pub open spec fn wf(self) -> bool {
        &&& 0 <= self.ptr < self.tape.len()
        &&& 0 <= self.read <= self.input.len()
        &&& 0 <= self.pc
    }

    /// The cell under the data pointer.
    pub open spec fn cell(self) -> u8 {
        self.tape[self.ptr]
    }
}

/// `tape`, extended by zero cells to `len` cells where it is shorter.
pub open spec fn grown(tape: Seq<u8>, len: int) -> Seq<u8> {
    if len <= tape.len() {
        tape
    } else {
        tape + Seq::new((len - tape.len()) as nat, |i: int| 0u8)
    }
}

/// The program counter is past the last instruction.
pub open spec fn halted(code: Seq<IR>, m: Machine) -> bool {
    m.pc >= code.len()
}

/// The next instruction reads input and no unread byte is left.
pub open spec fn starved(code: Seq<IR>, m: Machine) -> bool {
    !halted(code, m) && code[m.pc] == IR::GETCHAR && m.read >= m.input.len()
}

/// The next instruction moves the data pointer to a cell that a tape of at
/// most `usize::MAX` cells does not have.
pub open spec fn at_tape_limit(code: Seq<IR>, m: Machine) -> bool {
    &&& !halted(code, m)
    &&& code[m.pc] matches IR::SHR(n)
    &&& m.ptr + n >= usize::MAX
}

/// How the machine stands before its next instruction.
pub open spec fn verdict(code: Seq<IR>, m: Machine) -> Result<Status, Error> {
    if halted(code, m) {
        Ok(Status::Finished)
    } else if starved(code, m) {
        Err(Error::InputExhausted)
    } else if at_tape_limit(code, m) {
        Ok(Status::TapeLimit)
    } else {
        Ok(Status::Running)
    }
}

/// The machine after the instruction at its program counter.
///
/// A jump that is taken sets the program counter to its target, and like
/// every instruction then moves it on by one.
pub open spec fn perform(code: Seq<IR>, m: Machine) -> Machine {
    match code[m.pc] {
        IR::SHR(n) => Machine {
            ptr: m.ptr + n,
            tape: grown(m.tape, m.ptr + n + 1),
            pc: m.pc + 1,
            ..m
        },
        IR::SHL(n) => Machine { ptr: if m.ptr <= n { 0 } else { m.ptr - n }, pc: m.pc + 1, ..m },
        IR::ADD(n) => Machine {
            tape: m.tape.update(m.ptr, ((m.cell() + n) % 256) as u8),
            pc: m.pc + 1,
            ..m
        },
        IR::SUB(n) => Machine {
            tape: m.tape.update(m.ptr, ((m.cell() - n) % 256) as u8),
            pc: m.pc + 1,
            ..m
        },
        IR::PUTCHAR => Machine { output: m.output.push(m.cell()), pc: m.pc + 1, ..m },
        IR::GETCHAR => Machine {
            tape: m.tape.update(m.ptr, m.input[m.read]),
            read: m.read + 1,
            pc: m.pc + 1,
            ..m
        },
        IR::JIZ(t) => Machine { pc: if m.cell() == 0 { t + 1 } else { m.pc + 1 }, ..m },
        IR::JNZ(t) => Machine { pc: if m.cell() != 0 { t + 1 } else { m.pc + 1 }, ..m },
    }
}

/// The machine after one step: the next instruction performed if the
/// machine is running, the machine unchanged if it is not.
pub open spec fn advance(code: Seq<IR>, m: Machine) -> Machine {
    if verdict(code, m) == Ok::<Status, Error>(Status::Running) {
        perform(code, m)
    } else {
        m
    }
}

/// The machine after `n` steps.
pub open spec fn advance_by(code: Seq<IR>, m: Machine, n: nat) -> Machine
    decreases n,
{
    if n == 0 {
        m
    } else {
        advance(code, advance_by(code, m, (n - 1) as nat))
    }
}

/// A machine that is not running stays as it is, however many steps follow.
pub proof fn lemma_stopped_stays(code: Seq<IR>, m: Machine, a: nat, b: nat)
    requires
        a <= b,
        verdict(code, advance_by(code, m, a)) != Ok::<Status, Error>(Status::Running),
    ensures
        advance_by(code, m, b) == advance_by(code, m, a),
    decreases b,
{
    if a < b {
        lemma_stopped_stays(code, m, a, (b - 1) as nat);
    }
}

/// `a` is the beginning of `b`.
pub open spec fn starts(a: Seq<u8>, b: Seq<u8>) -> bool {
    a.len() <= b.len() && b.take(a.len() as int) == a
}

/// What no step undoes: the machine stays well formed and its program
/// counter within the program, the tape keeps its cells' number or gains
/// cells, the input stream is left as it is and is read forwards, and what
/// was written stays written.
pub open spec fn carries_on(code: Seq<IR>, from: Machine, to: Machine) -> bool {
    &&& to.wf()
    &&& to.pc <= code.len()
    &&& to.tape.len() >= from.tape.len()
    &&& to.input == from.input
    &&& to.read >= from.read
    &&& starts(from.output, to.output)
}

/// Every state of a run carries on from the state in which the run began.
pub proof fn lemma_run_carries_on(code: Seq<IR>, m: Machine, n: nat)
    requires
        m.wf(),
        m.pc <= code.len(),
        targets_in_range(code),
    ensures
        carries_on(code, m, advance_by(code, m, n)),
    decreases n,
{
    if n == 0 {
        assert(m.output.take(m.output.len() as int) =~= m.output);
    } else {
        lemma_run_carries_on(code, m, (n - 1) as nat);
        let before = advance_by(code, m, (n - 1) as nat);
        let after = advance(code, before);
        assert(after.output.take(m.output.len() as int) =~= before.output.take(
            m.output.len() as int,
        ));
    }
}

/// A move left from cell 0 is no error and leaves the data pointer at cell 0;
/// from any cell it goes back by the count or to cell 0, whichever is nearer.
pub proof fn lemma_move_left_saturates(code: Seq<IR>, m: Machine, n: u32)
    requires
        m.wf(),
        !halted(code, m),
        code[m.pc] == IR::SHL(n),
    ensures
        verdict(code, m) == Ok::<Status, Error>(Status::Running),
        m.ptr == 0 ==> advance(code, m).ptr == 0,
        advance(code, m).ptr == if m.ptr - n < 0 { 0 } else { m.ptr - n },
        advance(code, m).tape == m.tape,
        advance(code, m).wf(),
{
}

/// A move right to cell `p` leaves a tape of at least `p + 1` cells: the
/// cells it had are unchanged, and every cell it gained is zero.
pub proof fn lemma_move_right_grows(code: Seq<IR>, m: Machine, n: u32)
    requires
        m.wf(),
        !halted(code, m),
        code[m.pc] == IR::SHR(n),
    ensures
        perform(code, m).ptr == m.ptr + n,
        perform(code, m).tape.len() >= m.ptr + n + 1,
        perform(code, m).tape.len() >= m.tape.len(),
        forall|k: int| 0 <= k < m.tape.len() ==> perform(code, m).tape[k] == m.tape[k],
        forall|k: int|
            m.tape.len() <= k < perform(code, m).tape.len() ==> perform(code, m).tape[k] == 0,
        perform(code, m).wf(),
        m.ptr + n < usize::MAX ==> advance(code, m) == perform(code, m),
{
}

/// A run of `n` increments compiles to one instruction whose count is `n`
/// modulo 256.
pub proof fn lemma_compile_increments(n: nat)
    requires
        n >= 1,
    ensures
        compile(Seq::new(n, |i: int| Opcode::ADD)) == seq![IR::ADD((n % 256) as u8)],
    decreases n,
{
    let run = Seq::new(n, |i: int| Opcode::ADD);
    let shorter = Seq::new((n - 1) as nat, |i: int| Opcode::ADD);
    assert(run.drop_last() =~= shorter);
    if n > 1 {
        lemma_compile_increments((n - 1) as nat);
        assert(resolve(fold(shorter)) =~= fold(shorter));
        assert(fold(shorter) == seq![IR::ADD(((n - 1) % 256) as u8)]);
        assert(fold(run) =~= seq![IR::ADD((n % 256) as u8)]);
    } else {
        assert(fold(shorter) =~= Seq::<IR>::empty());
        assert(fold(run) =~= seq![IR::ADD(1)]);
    }
    assert(resolve(fold(run)) =~= fold(run));
}

/// After `k` of `n` single increments the current cell has grown by `k`
/// modulo 256 and nothing else but the program counter has changed.
proof fn lemma_single_increments(n: nat, m: Machine, k: nat)
    requires
        m.wf(),
        m.pc == 0,
        k <= n,
    ensures
        advance_by(Seq::new(n, |i: int| IR::ADD(1)), m, k) == (Machine {
            tape: m.tape.update(m.ptr, ((m.cell() + k) % 256) as u8),
            pc: k as int,
            ..m
        }),
    decreases k,
{
    let code = Seq::new(n, |i: int| IR::ADD(1));
    if k == 0 {
        assert(m.tape.update(m.ptr, ((m.cell() + 0) % 256) as u8) =~= m.tape);
    } else {
        lemma_single_increments(n, m, (k - 1) as nat);
        let before = advance_by(code, m, (k - 1) as nat);
        assert(code[before.pc] == IR::ADD(1));
        assert(verdict(code, before) == Ok::<Status, Error>(Status::Running));
        assert(before.tape.update(m.ptr, ((before.cell() + 1) % 256) as u8) =~= m.tape.update(
            m.ptr,
            ((m.cell() + k) % 256) as u8,
        ));
    }
}

/// Folding a run of increments changes nothing that can be observed: the
/// compiled form of `n` increment symbols and `n` single increment
/// instructions both finish within `n` steps, with the same tape, on which
/// the current cell has grown by `n` modulo 256, the same data pointer, and
/// the same input and output.
pub proof fn theorem_folded_increments(n: nat, m: Machine)
    requires
        m.wf(),
        m.pc == 0,
    ensures
        ({
            let folded = advance_by(compile(Seq::new(n, |i: int| Opcode::ADD)), m, n);
            let single = advance_by(Seq::new(n, |i: int| IR::ADD(1)), m, n);
            &&& halted(compile(Seq::new(n, |i: int| Opcode::ADD)), folded)
            &&& halted(Seq::new(n, |i: int| IR::ADD(1)), single)
            &&& folded.tape == m.tape.update(m.ptr, ((m.cell() + n) % 256) as u8)
            &&& single.tape == folded.tape
            &&& single.ptr == folded.ptr
            &&& single.input == folded.input
            &&& single.read == folded.read
            &&& single.output == folded.output
        }),
{
    let code = compile(Seq::new(n, |i: int| Opcode::ADD));
    lemma_single_increments(n, m, n);
    if n == 0 {
        assert(code =~= Seq::<IR>::empty());
        assert(m.tape.update(m.ptr, ((m.cell() + 0) % 256) as u8) =~= m.tape);
    } else {
        lemma_compile_increments(n);
        assert(code[0] == IR::ADD((n % 256) as u8));
        assert(advance_by(code, m, 0) == m);
        let once = advance_by(code, m, 1);
        assert(once == perform(code, m));
        lemma_stopped_stays(code, m, 1, n);
        assert(once.tape =~= m.tape.update(m.ptr, ((m.cell() + n) % 256) as u8));
    }
}

} // verus!
