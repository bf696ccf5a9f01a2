use vstd::prelude::*;
use crate::error::Error;

verus! {

/// One command symbol of a source program.
#[derive(Clone, Copy, Debug, PartialEq, Eq, Structural)]
pub enum Opcode {
    /// `>`: move the data pointer right.
    SHR,
    /// `<`: move the data pointer left.
    SHL,
    /// `+`: increment the current cell.
    ADD,
    /// `-`: decrement the current cell.
    SUB,
    /// `.`: write the current cell.
    PUTCHAR,
    /// `,`: read into the current cell.
    GETCHAR,
    /// `[`: loop start.
    LB,
    /// `]`: loop end.
    RB,
}

impl Opcode {
    /// The symbol that a byte of source stands for, if it stands for one.
    pub open spec fn of_byte(b: u8) -> Option<Opcode> {
        if b == 0x3E {
            Some(Opcode::SHR)
        } else if b == 0x3C {
            Some(Opcode::SHL)
        } else if b == 0x2B {
            Some(Opcode::ADD)
        } else if b == 0x2D {
            Some(Opcode::SUB)
        } else if b == 0x2E {
            Some(Opcode::PUTCHAR)
        } else if b == 0x2C {
            Some(Opcode::GETCHAR)
        } else if b == 0x5B {
            Some(Opcode::LB)
        } else if b == 0x5D {
            Some(Opcode::RB)
        } else {
            None
        }
    }

    /// Reads one byte of source: `Some` for the eight command characters,
    /// `None` for every other byte.
    pub fn from_byte(b: u8) -> (r: Option<Opcode>)
        ensures
            r == Self::of_byte(b),
    {
        match b {
            0x3E => Some(Opcode::SHR),
            0x3C => Some(Opcode::SHL),
            0x2B => Some(Opcode::ADD),
            0x2D => Some(Opcode::SUB),
            0x2E => Some(Opcode::PUTCHAR),
            0x2C => Some(Opcode::GETCHAR),
            0x5B => Some(Opcode::LB),
            0x5D => Some(Opcode::RB),
            _ => None,
        }
    }
}

/// The symbols of a source program: each command character in order, every
/// other byte left out.
pub open spec fn lex(bytes: Seq<u8>) -> Seq<Opcode>
    decreases bytes.len(),
{
    if bytes.len() == 0 {
        Seq::empty()
    } else {
        match Opcode::of_byte(bytes.last()) {
            Some(op) => lex(bytes.drop_last()).push(op),
            None => lex(bytes.drop_last()),
        }
    }
}

/// Reading drops bytes and adds none: there are at most as many symbols as
/// bytes, and each symbol is the reading of some byte of the source.
pub proof fn lemma_lex_len(bytes: Seq<u8>)
    ensures
        lex(bytes).len() <= bytes.len(),
        forall|i: int|
            0 <= i < lex(bytes).len() ==> exists|k: int|
                0 <= k < bytes.len() && Opcode::of_byte(bytes[k]) == Some(#[trigger] lex(bytes)[i]),
    decreases bytes.len(),
{
    if bytes.len() > 0 {
        let rest = bytes.drop_last();
        lemma_lex_len(rest);
        assert forall|i: int| 0 <= i < lex(bytes).len() implies exists|k: int|
            0 <= k < bytes.len() && Opcode::of_byte(bytes[k]) == Some(#[trigger] lex(bytes)[i]) by {
            if i < lex(rest).len() {
                let k = choose|k: int|
                    0 <= k < rest.len() && Opcode::of_byte(rest[k]) == Some(lex(rest)[i]);
                assert(bytes[k] == rest[k]);
            } else {
                assert(Opcode::of_byte(bytes[bytes.len() - 1]) == Some(lex(bytes)[i]));
            }
        }
    }
}

/// What a symbol adds to the nesting depth.
pub open spec fn depth_change(op: Opcode) -> int {
    match op {
        Opcode::LB => 1,
        Opcode::RB => -1,
        _ => 0,
    }
}

/// Nesting depth at the end of `syms`: loop starts minus loop ends.
pub open spec fn depth(syms: Seq<Opcode>) -> int
    decreases syms.len(),
{
    if syms.len() == 0 {
        0
    } else {
        depth(syms.drop_last()) + depth_change(syms.last())
    }
}

/// Some loop end in `syms` comes when no loop start is left open.
pub open spec fn has_unmatched_end(syms: Seq<Opcode>) -> bool {
    exists|k: int| 0 <= k <= syms.len() && depth(#[trigger] syms.take(k)) < 0
}

/// Every loop end closes an earlier loop start, and no loop start is left open.
pub open spec fn balanced(syms: Seq<Opcode>) -> bool {
    !has_unmatched_end(syms) && depth(syms) == 0
}

/// A source program read into symbols.
pub struct Code {
    /// The symbols, in the order of the source.
    pub instrs: Vec<Opcode>,
}

impl Code {
    /// Reads a source program.
    ///
    /// Bytes that are no command character are skipped. A loop end with no
    /// loop start left open is refused with `UnbalancedLoop`. Loop starts
    /// that are still open at the end of the source are accepted as they are:
    /// the source is not refused for them.
    pub fn from(data: Vec<u8>) -> (r: Result<Code, Error>)
        ensures
            r is Err <==> has_unmatched_end(lex(data@)),
            r matches Err(e) ==> e == Error::UnbalancedLoop,
            r matches Ok(code) ==> code.instrs@ == lex(data@) && code.instrs@.len() <= data@.len(),
    {
        proof {
            lemma_lex_len(data@);
        }
        let mut instrs: Vec<Opcode> = Vec::new();
        let mut i: usize = 0;
        while i < data.len()
            invariant
                i <= data.len(),
                instrs@ == lex(data@.take(i as int)),
            decreases data.len() - i,
        {
            assert(data@.take(i + 1).drop_last() =~= data@.take(i as int));
            match Opcode::from_byte(data[i]) {
                Some(op) => instrs.push(op),
                None => {},
            }
            i += 1;
        }
        assert(data@.take(data.len() as int) =~= data@);

        let mut open: usize = 0;
        let mut j: usize = 0;
        while j < instrs.len()
            invariant
                j <= instrs.len(),
                instrs@ == lex(data@),
                open == depth(instrs@.take(j as int)),
                open <= j,
                forall|k: int| 0 <= k <= j ==> depth(#[trigger] instrs@.take(k)) >= 0,
            decreases instrs.len() - j,
        {
            assert(instrs@.take(j + 1).drop_last() =~= instrs@.take(j as int));
            match instrs[j] {
                Opcode::LB => {
                    open += 1;
                },
                Opcode::RB => {
                    if open == 0 {
                        assert(depth(instrs@.take(j + 1)) < 0);
                        return Err(Error::UnbalancedLoop);
                    }
                    open -= 1;
                },
                _ => {},
            }
            j += 1;
        }
        Ok(Code { instrs })
    }
}

} // verus!
