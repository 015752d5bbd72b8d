use vstd::prelude::*;
use crate::model::{
    action_code, arch_supported, audit_arch, ids_unique, Condition, Policy, RuleGroup,
    SyscallRule, Width, ARG_SLOTS, RET_KILL_PROCESS,
};
use crate::program::{
    CompiledProgram, Instruction, ALU_AND_K, JMP_JA, JMP_JEQ_K, LD_W_ABS, MAX_INSTRUCTIONS, RET_K,
};

verus! {

#[derive(Clone, Copy, PartialEq, Eq, Debug, Structural)]
pub enum CompileError {
    UnsupportedArchitecture,
    InvalidArgumentIndex,
    VacuousMask,
    DuplicateSyscallRule,
    ProgramTooLarge,
}

/// One 32-bit test of the filter: the word at `offset`, masked, must equal `value`.
#[derive(Clone, Copy, PartialEq, Eq, Debug, Structural)]
pub struct WordTest {
    pub offset: u32,
    pub mask: u32,
    pub value: u32,
}

/// The chunks of a sequence of chunks, one after another.
pub open spec fn concat<A>(chunks: Seq<Seq<A>>) -> Seq<A>
    decreases chunks.len(),
{
    if chunks.len() == 0 {
        Seq::empty()
    } else {
        concat(chunks.drop_last()) + chunks.last()
    }
}

pub proof fn lemma_concat_take<A>(s: Seq<Seq<A>>, i: int)
    requires
        0 <= i < s.len(),
    ensures
        concat(s.take(i + 1)) == concat(s.take(i)) + s[i],
{
    assert(s.take(i + 1).drop_last() =~= s.take(i));
}

pub proof fn lemma_concat_prefix<A>(s: Seq<Seq<A>>, i: int)
    requires
        0 <= i <= s.len(),
    ensures
        concat(s.take(i)).len() <= concat(s).len(),
        concat(s).take(concat(s.take(i)).len() as int) =~= concat(s.take(i)),
    decreases s.len(),
{
    if i == s.len() {
        assert(s.take(i) =~= s);
    } else {
        let t = s.drop_last();
        lemma_concat_prefix(t, i);
        assert(t.take(i) =~= s.take(i));
    }
}

/// Chunk `i` sits whole inside the concatenation, right after the chunks before it.
pub proof fn lemma_concat_chunk<A>(s: Seq<Seq<A>>, i: int)
    requires
        0 <= i < s.len(),
    ensures
        concat(s.take(i)).len() + s[i].len() <= concat(s).len(),
        forall|t: int|
            0 <= t < s[i].len() ==> concat(s)[concat(s.take(i)).len() + t] == #[trigger] s[i][t],
{
    lemma_concat_take(s, i);
    lemma_concat_prefix(s, i + 1);
    let c = concat(s);
    let p = concat(s.take(i + 1));
    assert forall|t: int| 0 <= t < s[i].len() implies c[concat(s.take(i)).len() + t]
        == #[trigger] s[i][t] by {
        assert(c.take(p.len() as int)[concat(s.take(i)).len() + t] == p[concat(s.take(i)).len()
            + t]);
    }
}

pub proof fn lemma_concat_len4<A>(s: Seq<Seq<A>>)
    requires
        forall|i: int| 0 <= i < s.len() ==> (#[trigger] s[i]).len() == 4,
    ensures
        concat(s).len() == 4 * s.len(),
    decreases s.len(),
{
    if s.len() > 0 {
        lemma_concat_len4(s.drop_last());
    }
}

pub open spec fn instr(code: u16, jt: u8, jf: u8, k: u32) -> Instruction {
    Instruction { code, jt, jf, k }
}

pub open spec fn ret(k: u32) -> Instruction {
    instr(RET_K, 0, 0, k)
}

/// The word tests of one condition: the low word, preceded by the high word for 64 bits.
pub open spec fn cond_words(c: Condition) -> Seq<WordTest> {
    let m = c.effective_mask();
    let v = c.operand & m;
    let base = (16 + 8 * (c.argument_index as int)) as u32;
    let lo = WordTest {
        offset: base,
        mask: (m & 0xffff_ffffu64) as u32,
        value: (v & 0xffff_ffffu64) as u32,
    };
    let hi = WordTest { offset: (base + 4) as u32, mask: (m >> 32u64) as u32, value: (v >> 32u64) as u32 };
    match c.width {
        Width::Bits32 => seq![lo],
        Width::Bits64 => seq![hi, lo],
    }
}

pub open spec fn cond_chunks(g: Seq<Condition>) -> Seq<Seq<WordTest>> {
    Seq::new(g.len(), |k: int| cond_words(g[k]))
}

pub open spec fn group_words(g: Seq<Condition>) -> Seq<WordTest> {
    concat(cond_chunks(g))
}

/// Load, mask, compare; on a mismatch jump `skip` past the end of the check.
pub open spec fn word_check(w: WordTest, skip: u32) -> Seq<Instruction> {
    seq![
        instr(LD_W_ABS, 0, 0, w.offset),
        instr(ALU_AND_K, 0, 0, w.mask),
        instr(JMP_JEQ_K, 1, 0, w.value),
        instr(JMP_JA, 0, 0, skip),
    ]
}

pub open spec fn word_chunks(ws: Seq<WordTest>) -> Seq<Seq<Instruction>> {
    Seq::new(ws.len(), |i: int| word_check(ws[i], (4 * (ws.len() - 1 - i) + 1) as u32))
}

/// A group: its word tests in a row, a mismatch leaving the group, then `on_match`.
pub open spec fn words_code(ws: Seq<WordTest>, on_match: u32) -> Seq<Instruction> {
    concat(word_chunks(ws)) + seq![ret(on_match)]
}

pub open spec fn group_chunks(groups: Seq<RuleGroup>, on_match: u32) -> Seq<Seq<Instruction>> {
    Seq::new(groups.len(), |j: int| words_code(group_words(groups[j]@), on_match))
}

/// A rule's body: `on_match` for no groups, else the groups in turn and then `on_mismatch`.
pub open spec fn block_code(groups: Seq<RuleGroup>, on_match: u32, on_mismatch: u32) -> Seq<
    Instruction,
> {
    if groups.len() == 0 {
        seq![ret(on_match)]
    } else {
        concat(group_chunks(groups, on_match)) + seq![ret(on_mismatch)]
    }
}

/// A rule: test the syscall number, skip the body when it differs.
pub open spec fn rule_code(r: SyscallRule, on_match: u32, on_mismatch: u32) -> Seq<Instruction> {
    let b = block_code(r.groups@, on_match, on_mismatch);
    seq![instr(JMP_JEQ_K, 1, 0, r.syscall_id), instr(JMP_JA, 0, 0, b.len() as u32)] + b
}

pub open spec fn rule_chunks(rules: Seq<SyscallRule>, on_match: u32, on_mismatch: u32) -> Seq<
    Seq<Instruction>,
> {
    Seq::new(rules.len(), |i: int| rule_code(rules[i], on_match, on_mismatch))
}

/// Kill a foreign ABI, then load the syscall number.
pub open spec fn header(arch: u32) -> Seq<Instruction> {
    seq![
        instr(LD_W_ABS, 0, 0, 4),
        instr(JMP_JEQ_K, 1, 0, arch),
        ret(RET_KILL_PROCESS),
        instr(LD_W_ABS, 0, 0, 0),
    ]
}

/// The filter for a policy: header, one entry per rule in the policy's order, `on_mismatch`.
pub open spec fn program_of(p: Policy) -> Seq<Instruction> {
    let m = action_code(p.on_match);
    let mm = action_code(p.on_mismatch);
    header(audit_arch(p.architecture)) + concat(rule_chunks(p.rules@, m, mm)) + seq![ret(mm)]
}

pub open spec fn index_invalid(c: Condition) -> bool {
    c.argument_index >= ARG_SLOTS
}

pub open spec fn mask_vacuous(c: Condition) -> bool {
    c.effective_mask() == 0
}

pub open spec fn flawed(c: Condition, index_check: bool) -> bool {
    if index_check {
        index_invalid(c)
    } else {
        mask_vacuous(c)
    }
}

/// Some condition of some rule is flawed in the way `index_check` selects.
pub open spec fn any_flawed(rules: Seq<SyscallRule>, index_check: bool) -> bool {
    exists|i: int, j: int, k: int|
        0 <= i < rules.len() && 0 <= j < rules[i].groups@.len() && 0 <= k
            < rules[i].groups@[j]@.len() && flawed(
            #[trigger] rules[i].groups@[j]@[k],
            index_check,
        )
}

/// What compiling a policy yields; the errors are checked in this order.
pub open spec fn compile_result(p: Policy) -> Result<Seq<Instruction>, CompileError> {
    if !arch_supported(p.architecture) {
        Err(CompileError::UnsupportedArchitecture)
    } else if !ids_unique(p.rules@) {
        Err(CompileError::DuplicateSyscallRule)
    } else if any_flawed(p.rules@, true) {
        Err(CompileError::InvalidArgumentIndex)
    } else if any_flawed(p.rules@, false) {
        Err(CompileError::VacuousMask)
    } else if program_of(p).len() > MAX_INSTRUCTIONS {
        Err(CompileError::ProgramTooLarge)
    } else {
        Ok(program_of(p))
    }
}

fn has_duplicates(rules: &Vec<SyscallRule>) -> (r: bool)
    ensures
        r == !ids_unique(rules@),
{
    let n = rules.len();
    let mut i: usize = 0;
    while i < n
        invariant
            n == rules@.len(),
            i <= n,
            forall|a: int, b: int|
                0 <= a < i && 0 <= b < n && a != b ==> #[trigger] rules@[a].syscall_id
                    != #[trigger] rules@[b].syscall_id,
        decreases n - i,
    {
        let mut j: usize = 0;
        while j < n
            invariant
                n == rules@.len(),
                i < n,
                j <= n,
                forall|a: int, b: int|
                    0 <= a < i && 0 <= b < n && a != b ==> #[trigger] rules@[a].syscall_id
                        != #[trigger] rules@[b].syscall_id,
                forall|b: int|
                    0 <= b < j && b != i ==> rules@[i as int].syscall_id
                        != #[trigger] rules@[b].syscall_id,
            decreases n - j,
        {
            if j != i && rules[i].syscall_id == rules[j].syscall_id {
                return true;
            }
            j = j + 1;
        }
        i = i + 1;
    }
    false
}

fn is_flawed(c: &Condition, index_check: bool) -> (r: bool)
    ensures
        r == flawed(*c, index_check),
{
    if index_check {
        c.argument_index >= ARG_SLOTS
    } else {
        c.mask_bits() == 0
    }
}

fn find_flaw(rules: &Vec<SyscallRule>, index_check: bool) -> (r: bool)
    ensures
        r == any_flawed(rules@, index_check),
{
    let mut i: usize = 0;
    while i < rules.len()
        invariant
            i <= rules@.len(),
            forall|a: int, b: int, c: int|
                0 <= a < i && 0 <= b < rules@[a].groups@.len() && 0 <= c
                    < rules@[a].groups@[b]@.len() ==> !flawed(
                    #[trigger] rules@[a].groups@[b]@[c],
                    index_check,
                ),
        decreases rules@.len() - i,
    {
        let groups = &rules[i].groups;
        let mut j: usize = 0;
        while j < groups.len()
            invariant
                i < rules@.len(),
                groups@ == rules@[i as int].groups@,
                j <= groups@.len(),
                forall|a: int, b: int, c: int|
                    0 <= a < i && 0 <= b < rules@[a].groups@.len() && 0 <= c
                        < rules@[a].groups@[b]@.len() ==> !flawed(
                        #[trigger] rules@[a].groups@[b]@[c],
                        index_check,
                    ),
                forall|b: int, c: int|
                    0 <= b < j && 0 <= c < groups@[b]@.len() ==> !flawed(
                        #[trigger] groups@[b]@[c],
                        index_check,
                    ),
            decreases groups@.len() - j,
        {
            let conds = groups[j].conditions();
            let mut k: usize = 0;
            while k < conds.len()
                invariant
                    i < rules@.len(),
                    groups@ == rules@[i as int].groups@,
                    j < groups@.len(),
                    conds@ == groups@[j as int]@,
                    k <= conds@.len(),
                    forall|a: int, b: int, c: int|
                        0 <= a < i && 0 <= b < rules@[a].groups@.len() && 0 <= c
                            < rules@[a].groups@[b]@.len() ==> !flawed(
                            #[trigger] rules@[a].groups@[b]@[c],
                            index_check,
                        ),
                    forall|b: int, c: int|
                        0 <= b < j && 0 <= c < groups@[b]@.len() ==> !flawed(
                            #[trigger] groups@[b]@[c],
                            index_check,
                        ),
                    forall|c: int| 0 <= c < k ==> !flawed(#[trigger] conds@[c], index_check),
                decreases conds@.len() - k,
            {
                if is_flawed(&conds[k], index_check) {
                    assert(flawed(rules@[i as int].groups@[j as int]@[k as int], index_check));
                    return true;
                }
                k = k + 1;
            }
            j = j + 1;
        }
        i = i + 1;
    }
    false
}

fn words_of(conds: &Vec<Condition>) -> (r: Vec<WordTest>)
    ensures
        r@ == group_words(conds@),
{
    let mut out: Vec<WordTest> = Vec::new();
    let mut i: usize = 0;
    while i < conds.len()
        invariant
            i <= conds@.len(),
            out@ == concat(cond_chunks(conds@).take(i as int)),
        decreases conds@.len() - i,
    {
        let c = conds[i];
        let m = c.mask_bits();
        let v = c.operand & m;
        let base: u32 = 16 + 8 * (c.argument_index as u32);
        let lo = WordTest {
            offset: base,
            mask: (m & 0xffff_ffffu64) as u32,
            value: (v & 0xffff_ffffu64) as u32,
        };
        proof {
            lemma_concat_take(cond_chunks(conds@), i as int);
        }
        match c.width {
            Width::Bits32 => {
                out.push(lo);
            },
            Width::Bits64 => {
                out.push(WordTest { offset: base + 4, mask: (m >> 32u64) as u32, value: (v >> 32u64) as u32 });
                out.push(lo);
            },
        }
        assert(out@ == concat(cond_chunks(conds@).take(i as int)) + cond_words(c));
        i = i + 1;
    }
    assert(cond_chunks(conds@).take(i as int) =~= cond_chunks(conds@));
    out
}

fn emit_words(out: &mut Vec<Instruction>, ws: &Vec<WordTest>, on_match: u32)
    requires
        ws@.len() < MAX_INSTRUCTIONS,
    ensures
        final(out)@ == old(out)@ + words_code(ws@, on_match),
{
    let ghost start = out@;
    let n = ws.len();
    let mut i: usize = 0;
    while i < n
        invariant
            n == ws@.len(),
            n < MAX_INSTRUCTIONS,
            i <= n,
            out@ == start + concat(word_chunks(ws@).take(i as int)),
        decreases n - i,
    {
        let w = ws[i];
        let skip: u32 = (4 * (n - 1 - i) + 1) as u32;
        proof {
            lemma_concat_take(word_chunks(ws@), i as int);
        }
        out.push(Instruction { code: LD_W_ABS, jt: 0, jf: 0, k: w.offset });
        out.push(Instruction { code: ALU_AND_K, jt: 0, jf: 0, k: w.mask });
        out.push(Instruction { code: JMP_JEQ_K, jt: 1, jf: 0, k: w.value });
        out.push(Instruction { code: JMP_JA, jt: 0, jf: 0, k: skip });
        assert(out@ == start + concat(word_chunks(ws@).take(i as int)) + word_check(ws@[i as int], skip));
        i = i + 1;
    }
    assert(word_chunks(ws@).take(n as int) =~= word_chunks(ws@));
    out.push(Instruction { code: RET_K, jt: 0, jf: 0, k: on_match });
}

/// The body of one rule, or `None` when it alone is too long for a filter.
fn build_block(rule: &SyscallRule, on_match: u32, on_mismatch: u32) -> (r: Option<
    Vec<Instruction>,
>)
    ensures
        r matches Some(b) ==> b@ == block_code(rule.groups@, on_match, on_mismatch),
        r is None ==> block_code(rule.groups@, on_match, on_mismatch).len() > MAX_INSTRUCTIONS,
{
    let groups = &rule.groups;
    if groups.len() == 0 {
        return Some(vec![Instruction { code: RET_K, jt: 0, jf: 0, k: on_match }]);
    }
    let ghost chunks = group_chunks(groups@, on_match);
    let mut b: Vec<Instruction> = Vec::new();
    let mut j: usize = 0;
    while j < groups.len()
        invariant
            groups@ == rule.groups@,
            chunks == group_chunks(groups@, on_match),
            j <= groups@.len(),
            b@ == concat(chunks.take(j as int)),
        decreases groups@.len() - j,
    {
        let ws = words_of(groups[j].conditions());
        if ws.len() >= MAX_INSTRUCTIONS {
            proof {
                lemma_concat_len4(word_chunks(ws@));
                lemma_concat_chunk(chunks, j as int);
            }
            return None;
        }
        proof {
            lemma_concat_take(chunks, j as int);
        }
        emit_words(&mut b, &ws, on_match);
        j = j + 1;
    }
    assert(chunks.take(j as int) =~= chunks);
    b.push(Instruction { code: RET_K, jt: 0, jf: 0, k: on_mismatch });
    Some(b)
}

/// Compiles a policy into a filter program.
pub fn compile(policy: &Policy) -> (r: Result<CompiledProgram, CompileError>)
    ensures
        match r {
            Ok(prog) => compile_result(*policy) == Ok::<Seq<Instruction>, CompileError>(prog@),
            Err(e) => compile_result(*policy) == Err::<Seq<Instruction>, CompileError>(e),
        },
{
    if !policy.architecture.is_supported() {
        return Err(CompileError::UnsupportedArchitecture);
    }
    if has_duplicates(&policy.rules) {
        return Err(CompileError::DuplicateSyscallRule);
    }
    if find_flaw(&policy.rules, true) {
        return Err(CompileError::InvalidArgumentIndex);
    }
    if find_flaw(&policy.rules, false) {
        return Err(CompileError::VacuousMask);
    }
    let m = policy.on_match.code();
    let mm = policy.on_mismatch.code();
    let rules = &policy.rules;
    let ghost chunks = rule_chunks(rules@, m, mm);
    let ghost head = header(audit_arch(policy.architecture));
    let mut out: Vec<Instruction> = Vec::new();
    out.push(Instruction { code: LD_W_ABS, jt: 0, jf: 0, k: 4 });
    out.push(Instruction { code: JMP_JEQ_K, jt: 1, jf: 0, k: policy.architecture.audit_value() });
    out.push(Instruction { code: RET_K, jt: 0, jf: 0, k: RET_KILL_PROCESS });
    out.push(Instruction { code: LD_W_ABS, jt: 0, jf: 0, k: 0 });
    assert(out@ == head + concat(chunks.take(0)));
    let mut i: usize = 0;
    while i < rules.len()
        invariant
            rules@ == policy.rules@,
            m == action_code(policy.on_match),
            mm == action_code(policy.on_mismatch),
            chunks == rule_chunks(rules@, m, mm),
            head == header(audit_arch(policy.architecture)),
            head.len() == 4,
            i <= rules@.len(),
            out@ == head + concat(chunks.take(i as int)),
            out@.len() < MAX_INSTRUCTIONS,
            arch_supported(policy.architecture),
            ids_unique(policy.rules@),
            !any_flawed(policy.rules@, true),
            !any_flawed(policy.rules@, false),
        decreases rules@.len() - i,
    {
        let rule = &rules[i];
        proof {
            lemma_concat_chunk(chunks, i as int);
            lemma_concat_take(chunks, i as int);
        }
        match build_block(rule, m, mm) {
            None => {
                return Err(CompileError::ProgramTooLarge);
            },
            Some(mut block) => {
                if out.len() + 3 > MAX_INSTRUCTIONS || block.len() > MAX_INSTRUCTIONS - out.len()
                    - 3 {
                    return Err(CompileError::ProgramTooLarge);
                }
                out.push(Instruction { code: JMP_JEQ_K, jt: 1, jf: 0, k: rule.syscall_id });
                out.push(Instruction { code: JMP_JA, jt: 0, jf: 0, k: block.len() as u32 });
                out.append(&mut block);
            },
        }
        i = i + 1;
    }
    assert(chunks.take(i as int) =~= chunks);
    out.push(Instruction { code: RET_K, jt: 0, jf: 0, k: mm });
    assert(out@ == program_of(*policy));
    Ok(CompiledProgram::from_instructions(out))
}

} // verus!
