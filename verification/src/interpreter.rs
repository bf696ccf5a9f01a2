use vstd::prelude::*;
use crate::error::Error;
use crate::ir::{compile, Code, IR};
use crate::machine::{advance, advance_by, grown, lemma_stopped_stays, verdict, Machine, Status};
use crate::opcode::{has_unmatched_end, lex};

verus! {

/// A tape machine: the tape, the data pointer, the program counter, and its
/// ends of the input and output streams.
#[derive(Debug)]
pub struct Interpreter {
    /// The tape.
    pub stack: Vec<u8>,
    /// The data pointer.
    pub ps: usize,
    /// The program counter.
    pub pc: usize,
    /// The bytes of the input stream that have arrived.
    pub input: Vec<u8>,
    /// How many bytes of `input` have been read.
    pub consumed: usize,
    /// The bytes written to the output stream.
    pub output: Vec<u8>,
}

impl View for Interpreter {
    type V = Machine;

    open spec fn view(&self) -> Machine {
        Machine {
            tape: self.stack@,
            ptr: self.ps as int,
            pc: self.pc as int,
            input: self.input@,
            read: self.consumed as int,
            output: self.output@,
        }
    }
}

impl Interpreter {
    /// The data pointer is on the tape and `consumed` is within `input`.
    pub open spec fn wf(&self) -> bool {
        self@.wf()
    }

    /// A machine at its start: a tape of one zero cell, data pointer and
    /// program counter 0, no input and no output.
    pub fn new() -> (r: Self)
        ensures
            r.wf(),
            r@.tape == seq![0u8],
            r@.ptr == 0,
            r@.pc == 0,
            r@.input == Seq::<u8>::empty(),
            r@.read == 0,
            r@.output == Seq::<u8>::empty(),
    {
        let mut stack: Vec<u8> = Vec::new();
        stack.push(0);
        Interpreter {
            stack,
            ps: 0,
            pc: 0,
            input: Vec::new(),
            consumed: 0,
            output: Vec::new(),
        }
    }

    /// Whether the data pointer is on the tape and `consumed` is within
    /// `input`: what `step`, `execute` and `run` ask of a machine whose
    /// fields were set by hand.
    pub fn is_wf(&self) -> (r: bool)
        ensures
            r == self.wf(),
    {
        self.ps < self.stack.len() && self.consumed <= self.input.len()
    }

    /// How the machine stands before its next instruction.
    pub fn status(&self, code: &Code) -> (r: Result<Status, Error>)
        ensures
            r == verdict(code.instrs@, self@),
    {
        if self.pc >= code.instrs.len() {
            return Ok(Status::Finished);
        }
        match code.instrs[self.pc] {
            IR::GETCHAR => {
                if self.consumed >= self.input.len() {
                    Err(Error::InputExhausted)
                } else {
                    Ok(Status::Running)
                }
            },
            IR::SHR(n) => {
                if usize::MAX - self.ps <= n as usize {
                    Ok(Status::TapeLimit)
                } else {
                    Ok(Status::Running)
                }
            },
            _ => Ok(Status::Running),
        }
    }

    /// Executes the next instruction, if the machine is running.
    ///
    /// Returns how the machine stood before the call. `Ok(Running)` says that
    /// one instruction was executed. On every other result the machine is
    /// left exactly as it was: `Ok(Finished)` at the end of the program,
    /// `Err(InputExhausted)` before an input instruction with no unread byte,
    /// `Ok(TapeLimit)` before a move that the platform cannot follow.
    pub fn step(&mut self, code: &Code) -> (r: Result<Status, Error>)
        requires
            old(self).wf(),
            code.wf(),
        ensures
            final(self).wf(),
            r == verdict(code.instrs@, old(self)@),
            final(self)@ == advance(code.instrs@, old(self)@),
    {
        if self.pc >= code.instrs.len() {
            return Ok(Status::Finished);
        }
        match code.instrs[self.pc] {
            IR::SHR(n) => {
                if usize::MAX - self.ps <= n as usize {
                    return Ok(Status::TapeLimit);
                }
                let ghost tape = self.stack@;
                self.ps += n as usize;
                while self.stack.len() <= self.ps
                    invariant
                        self.ps < usize::MAX,
                        self.ps == old(self).ps + n,
                        self.pc == old(self).pc,
                        self.input == old(self).input,
                        self.consumed == old(self).consumed,
                        self.output == old(self).output,
                        tape.len() <= self.stack@.len(),
                        self.stack@.len() <= tape.len() || self.stack@.len() <= self.ps + 1,
                        self.stack@ == grown(tape, self.stack@.len() as int),
                    decreases self.ps + 1 - self.stack@.len(),
                {
                    self.stack.push(0);
                    assert(self.stack@ =~= grown(tape, self.stack@.len() as int));
                }
                assert(self.stack@ == grown(tape, self.ps + 1));
            },
            IR::SHL(n) => {
                self.ps = self.ps.saturating_sub(n as usize);
            },
            IR::ADD(n) => {
                let cell = self.stack[self.ps];
                self.stack.set(self.ps, cell.wrapping_add(n));
            },
            IR::SUB(n) => {
                let cell = self.stack[self.ps];
                self.stack.set(self.ps, cell.wrapping_sub(n));
            },
            IR::PUTCHAR => {
                let cell = self.stack[self.ps];
                self.output.push(cell);
            },
            IR::GETCHAR => {
                if self.consumed >= self.input.len() {
                    return Err(Error::InputExhausted);
                }
                let byte = self.input[self.consumed];
                self.stack.set(self.ps, byte);
                self.consumed += 1;
            },
            IR::JIZ(t) => {
                if self.stack[self.ps] == 0 {
                    self.pc = t as usize;
                }
            },
            IR::JNZ(t) => {
                if self.stack[self.ps] != 0 {
                    self.pc = t as usize;
                }
            },
        }
        self.pc += 1;
        Ok(Status::Running)
    }

    /// Executes instructions until the machine stops running or `max_steps`
    /// instructions have been executed.
    ///
    /// Returns how the machine stands afterwards: `Ok(Finished)` at the end
    /// of the program, `Err(InputExhausted)` before an input instruction with
    /// no unread byte, `Ok(TapeLimit)` before a move that the platform cannot
    /// follow, and `Ok(Running)` where only the step budget ended the run. A
    /// later call goes on from there.
    pub fn execute(&mut self, code: &Code, max_steps: u64) -> (r: Result<Status, Error>)
        requires
            old(self).wf(),
            code.wf(),
        ensures
            final(self).wf(),
            final(self)@ == advance_by(code.instrs@, old(self)@, max_steps as nat),
            r == verdict(code.instrs@, final(self)@),
    {
        let mut done: u64 = 0;
        while done < max_steps
            invariant
                self.wf(),
                code.wf(),
                done <= max_steps,
                self@ == advance_by(code.instrs@, old(self)@, done as nat),
            decreases max_steps - done,
        {
            match self.step(code) {
                Ok(Status::Running) => {
                    done += 1;
                },
                stopped => {
                    proof {
                        lemma_stopped_stays(
                            code.instrs@,
                            old(self)@,
                            done as nat,
                            max_steps as nat,
                        );
                    }
                    return stopped;
                },
            }
        }
        self.status(code)
    }

    /// Reads, compiles and executes a source program on this machine, for at
    /// most `max_steps` instructions.
    ///
    /// A source with a loop end that closes nothing is refused with
    /// `UnbalancedLoop` and the machine is left as it was. Otherwise the
    /// result is that of `execute` on the compiled program.
    ///
    /// Counts and targets are 32 bits wide, so the source must not be longer
    /// than `u32::MAX` bytes.
    pub fn run(&mut self, data: Vec<u8>, max_steps: u64) -> (r: Result<Status, Error>)
        requires
            old(self).wf(),
            data@.len() <= u32::MAX,
        ensures
            final(self).wf(),
            has_unmatched_end(lex(data@)) ==> r == Err::<Status, Error>(Error::UnbalancedLoop)
                && final(self)@ == old(self)@,
            !has_unmatched_end(lex(data@)) ==> final(self)@ == advance_by(
                compile(lex(data@)),
                old(self)@,
                max_steps as nat,
            ) && r == verdict(compile(lex(data@)), final(self)@),
    {
        proof {
            crate::opcode::lemma_lex_len(data@);
        }
        let symbols = match crate::opcode::Code::from(data) {
            Ok(symbols) => symbols,
            Err(e) => {
                return Err(e);
            },
        };
        let code = match Code::from(symbols.instrs) {
            Ok(code) => code,
            Err(e) => {
                return Err(e);
            },
        };
        self.execute(&code, max_steps)
    }
}

} // verus!
