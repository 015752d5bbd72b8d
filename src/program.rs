use vstd::prelude::*;
use crate::model::Invocation;

verus! {

/// Load a 32-bit word of the invocation record at offset `k`.
pub const LD_W_ABS: u16 = 0x20;

/// `acc &= k`.
pub const ALU_AND_K: u16 = 0x54;

/// Jump by `jt` when `acc == k`, else by `jf`.
pub const JMP_JEQ_K: u16 = 0x15;

/// Jump by `k` unconditionally.
pub const JMP_JA: u16 = 0x05;

/// Stop with return value `k`.
pub const RET_K: u16 = 0x06;

/// Most instructions the kernel accepts in one filter.
pub const MAX_INSTRUCTIONS: usize = 4096;

/// One fixed-size filter instruction, laid out as the kernel's filter API expects.
#[derive(Clone, Copy, PartialEq, Eq, Debug, Structural)]
pub struct Instruction {
    pub code: u16,
    pub jt: u8,
    pub jf: u8,
    pub k: u32,
}

/// The 32-bit word at byte offset `off` of the invocation record: the syscall number at 0,
/// the architecture at 4, and each argument at `16 + 8 * i`, low word first.
pub open spec fn load_word(inv: Invocation, off: u32) -> Option<u32> {
    if off == 0 {
        Some(inv.nr)
    } else if off == 4 {
        Some(inv.arch)
    } else if 16 <= off < 64 && off % 4 == 0 {
        let a = inv.args@[(off - 16) / 8];
        if off % 8 == 0 {
            Some((a & 0xffff_ffffu64) as u32)
        } else {
            Some((a >> 32u64) as u32)
        }
    } else {
        None
    }
}

/// One instruction as the kernel reads it: code, jump offsets and operand, little-endian.
pub open spec fn instruction_bytes(i: Instruction) -> Seq<u8> {
    seq![
        (i.code & 0xff) as u8,
        (i.code >> 8u16) as u8,
        i.jt,
        i.jf,
        (i.k & 0xff) as u8,
        ((i.k >> 8u32) & 0xff) as u8,
        ((i.k >> 16u32) & 0xff) as u8,
        (i.k >> 24u32) as u8,
    ]
}

/// The bytes of a program: its instructions' records one after another.
pub open spec fn encode(prog: Seq<Instruction>) -> Seq<u8>
    decreases prog.len(),
{
    if prog.len() == 0 {
        Seq::empty()
    } else {
        encode(prog.drop_last()) + instruction_bytes(prog.last())
    }
}

/// The result of running `prog` from instruction `pc` with accumulator `acc`; `None` when
/// the run reads outside the record, meets an unknown instruction or leaves the program.
pub open spec fn run(prog: Seq<Instruction>, pc: int, acc: u32, inv: Invocation) -> Option<u32>
    decreases prog.len() - pc,
{
    if pc < 0 || pc >= prog.len() {
        None
    } else {
        let ins = prog[pc];
        if ins.code == LD_W_ABS {
            match load_word(inv, ins.k) {
                Some(w) => run(prog, pc + 1, w, inv),
                None => None,
            }
        } else if ins.code == ALU_AND_K {
            run(prog, pc + 1, acc & ins.k, inv)
        } else if ins.code == JMP_JEQ_K || ins.code == JMP_JA {
            let off: int = if ins.code == JMP_JA {
                ins.k as int
            } else if acc == ins.k {
                ins.jt as int
            } else {
                ins.jf as int
            };
            if pc + 1 + off >= prog.len() {
                None
            } else {
                run(prog, pc + 1 + off, acc, inv)
            }
        } else if ins.code == RET_K {
            Some(ins.k)
        } else {
            None
        }
    }
}

/// The return value of a whole filter for one invocation.
pub open spec fn outcome(prog: Seq<Instruction>, inv: Invocation) -> Option<u32> {
    run(prog, 0, 0, inv)
}

fn load(inv: &Invocation, off: u32) -> (r: Option<u32>)
    ensures
        r == load_word(*inv, off),
{
    if off == 0 {
        Some(inv.nr)
    } else if off == 4 {
        Some(inv.arch)
    } else if 16 <= off && off < 64 && off % 4 == 0 {
        let a = inv.args[((off - 16) / 8) as usize];
        if off % 8 == 0 {
            Some((a & 0xffff_ffffu64) as u32)
        } else {
            Some((a >> 32u64) as u32)
        }
    } else {
        None
    }
}

/// A filter produced by the compiler; immutable once built.
pub struct CompiledProgram {
    instructions: Vec<Instruction>,
}

impl View for CompiledProgram {
    type V = Seq<Instruction>;

    closed spec fn view(&self) -> Seq<Instruction> {
        self.instructions@
    }
}

impl CompiledProgram {
    pub(crate) fn from_instructions(instructions: Vec<Instruction>) -> (r: CompiledProgram)
        ensures
            r@ == instructions@,
    {
        CompiledProgram { instructions }
    }

    pub fn instructions(&self) -> (r: &Vec<Instruction>)
        ensures
            r@ == self@,
    {
        &self.instructions
    }

    pub fn len(&self) -> (r: usize)
        ensures
            r == self@.len(),
    {
        self.instructions.len()
    }

    /// The program in the kernel's binary format, eight bytes per instruction.
    pub fn to_bytes(&self) -> (r: Vec<u8>)
        ensures
            r@ == encode(self@),
    {
        let prog = &self.instructions;
        let mut out: Vec<u8> = Vec::new();
        let mut i: usize = 0;
        while i < prog.len()
            invariant
                i <= prog@.len(),
                prog@ == self@,
                out@ == encode(prog@.take(i as int)),
            decreases prog@.len() - i,
        {
            let ins = prog[i];
            out.push((ins.code & 0xff) as u8);
            out.push((ins.code >> 8u16) as u8);
            out.push(ins.jt);
            out.push(ins.jf);
            out.push((ins.k & 0xff) as u8);
            out.push(((ins.k >> 8u32) & 0xff) as u8);
            out.push(((ins.k >> 16u32) & 0xff) as u8);
            out.push((ins.k >> 24u32) as u8);
            assert(prog@.take(i as int + 1).drop_last() =~= prog@.take(i as int));
            assert(out@ =~= encode(prog@.take(i as int)) + instruction_bytes(ins));
            i = i + 1;
        }
        assert(prog@.take(i as int) =~= prog@);
        out
    }

    /// Runs the filter on one invocation, as the kernel would.
    pub fn evaluate(&self, inv: &Invocation) -> (r: Option<u32>)
        ensures
            r == outcome(self@, *inv),
    {
        let prog = &self.instructions;
        let n = prog.len();
        let mut pc: usize = 0;
        let mut acc: u32 = 0;
        while pc < n
            invariant
                n == prog@.len(),
                prog@ == self@,
                pc <= n,
                run(prog@, pc as int, acc, *inv) == outcome(prog@, *inv),
            decreases n - pc,
        {
            let ins = prog[pc];
            proof {
                reveal_with_fuel(run, 2);
            }
            if ins.code == LD_W_ABS {
                match load(inv, ins.k) {
                    Some(w) => {
                        acc = w;
                        pc = pc + 1;
                    },
                    None => {
                        return None;
                    },
                }
            } else if ins.code == ALU_AND_K {
                acc = acc & ins.k;
                pc = pc + 1;
            } else if ins.code == JMP_JEQ_K || ins.code == JMP_JA {
                let off: u32 = if ins.code == JMP_JA {
                    ins.k
                } else if acc == ins.k {
                    ins.jt as u32
                } else {
                    ins.jf as u32
                };
                if off as usize >= n - pc - 1 {
                    return None;
                }
                pc = pc + 1 + off as usize;
            } else if ins.code == RET_K {
                return Some(ins.k);
            } else {
                return None;
            }
        }
        None
    }
}

} // verus!
