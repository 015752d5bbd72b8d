use vstd::prelude::*;
use crate::compiler::{
    block_code, compile_result, concat, cond_chunks, cond_words, flawed, group_chunks,
    group_words, header, index_invalid, lemma_concat_chunk, lemma_concat_len4, lemma_concat_take,
    program_of, ret, rule_chunks, rule_code, word_check, word_chunks, words_code, WordTest,
};
use crate::model::{
    action_code, audit_arch, group_holds, has_rule, Condition, Invocation, Operator, Policy,
    RuleGroup, SyscallRule, Width,
};
use crate::program::{encode, load_word, outcome, run, Instruction, MAX_INSTRUCTIONS};

verus! {

/// Whether the filter's test of one word passes for an invocation.
pub open spec fn word_match(w: WordTest, inv: Invocation) -> bool {
    match load_word(inv, w.offset) {
        Some(x) => x & w.mask == w.value,
        None => false,
    }
}

pub open spec fn all_match(ws: Seq<WordTest>, inv: Invocation) -> bool {
    forall|x: int| 0 <= x < ws.len() ==> word_match(#[trigger] ws[x], inv)
}

proof fn lemma_split64(a: u64, v: u64, m: u64)
    ensures
        (a & m == v & m) <==> ((((a >> 32u64) as u32) & ((m >> 32u64) as u32)) == ((v & m)
            >> 32u64) as u32 && (((a & 0xffff_ffffu64) as u32) & ((m & 0xffff_ffffu64) as u32))
            == ((v & m) & 0xffff_ffffu64) as u32),
{
    assert((a & m == v & m) <==> ((((a >> 32u64) as u32) & ((m >> 32u64) as u32)) == ((v & m)
        >> 32u64) as u32 && (((a & 0xffff_ffffu64) as u32) & ((m & 0xffff_ffffu64) as u32)) == ((
    v & m) & 0xffff_ffffu64) as u32)) by (bit_vector);
}

proof fn lemma_split32(a: u64, v: u64, m: u64)
    requires
        m == m & 0xffff_ffffu64,
    ensures
        (a & m == v & m) <==> ((((a & 0xffff_ffffu64) as u32) & ((m & 0xffff_ffffu64) as u32))
            == ((v & m) & 0xffff_ffffu64) as u32),
{
    assert(m == m & 0xffff_ffffu64 ==> ((a & m == v & m) <==> ((((a & 0xffff_ffffu64) as u32) & ((m
        & 0xffff_ffffu64) as u32)) == ((v & m) & 0xffff_ffffu64) as u32))) by (bit_vector);
}

/// The word tests of a condition with a valid index pass exactly when the condition holds.
proof fn lemma_cond_words(c: Condition, inv: Invocation)
    requires
        !index_invalid(c),
    ensures
        all_match(cond_words(c), inv) <==> c.holds(inv.args@),
        forall|x: int|
            0 <= x < cond_words(c).len() ==> load_word(inv, (#[trigger] cond_words(c)[x]).offset) is Some,
{
    let i = c.argument_index as int;
    let m = c.effective_mask();
    let a = inv.args@[i];
    let lo = (16 + 8 * i) as u32;
    assert((lo - 16) / 8 == i && lo % 8 == 0 && lo % 4 == 0 && 16 <= lo < 64) by {
        assert(0 <= i < 6);
    }
    assert(((lo + 4) as u32 - 16) / 8 == i && (lo + 4) as u32 % 8 == 4 && (lo + 4) as u32 % 4 == 0) by {
        assert(0 <= i < 6);
    }
    let ws = cond_words(c);
    match c.width {
        Width::Bits32 => {
            let base: u64 = match c.operator {
                crate::model::Operator::Equals => 0xffff_ffff_ffff_ffffu64,
                crate::model::Operator::MaskedEquals(mm) => mm,
            };
            assert(m == base & 0xffff_ffffu64);
            assert((base & 0xffff_ffffu64) == (base & 0xffff_ffffu64) & 0xffff_ffffu64) by (bit_vector);
            lemma_split32(a, c.operand, m);
            assert(word_match(ws[0], inv) <==> c.holds(inv.args@));
        },
        Width::Bits64 => {
            lemma_split64(a, c.operand, m);
            assert(word_match(ws[0], inv) && word_match(ws[1], inv) <==> c.holds(inv.args@));
        },
    }
}

proof fn lemma_words_prefix(g: Seq<Condition>, k: int, inv: Invocation)
    requires
        0 <= k <= g.len(),
        forall|q: int| 0 <= q < g.len() ==> !index_invalid(#[trigger] g[q]),
    ensures
        all_match(concat(cond_chunks(g).take(k)), inv) <==> (forall|q: int|
            0 <= q < k ==> (#[trigger] g[q]).holds(inv.args@)),
        forall|x: int|
            0 <= x < concat(cond_chunks(g).take(k)).len() ==> load_word(
                inv,
                (#[trigger] concat(cond_chunks(g).take(k))[x]).offset,
            ) is Some,
    decreases k,
{
    let cc = cond_chunks(g);
    if k == 0 {
        assert(cc.take(0).len() == 0);
    } else {
        lemma_words_prefix(g, k - 1, inv);
        lemma_concat_take(cc, k - 1);
        lemma_cond_words(g[k - 1], inv);
        let pre = concat(cc.take(k - 1));
        let cw = cond_words(g[k - 1]);
        assert(cc[k - 1] == cw);
        assert forall|x: int| 0 <= x < (pre + cw).len() implies load_word(
            inv,
            (#[trigger] (pre + cw)[x]).offset,
        ) is Some by {
            if x >= pre.len() {
                assert((pre + cw)[x] == cw[x - pre.len()]);
            } else {
                assert((pre + cw)[x] == pre[x]);
            }
        }
        if all_match(pre, inv) && all_match(cw, inv) {
            assert forall|x: int| 0 <= x < (pre + cw).len() implies word_match(
                #[trigger] (pre + cw)[x],
                inv,
            ) by {
                if x >= pre.len() {
                    assert((pre + cw)[x] == cw[x - pre.len()]);
                } else {
                    assert((pre + cw)[x] == pre[x]);
                }
            }
        }
        if all_match(pre + cw, inv) {
            assert forall|x: int| 0 <= x < pre.len() implies word_match(#[trigger] pre[x], inv) by {
                assert((pre + cw)[x] == pre[x]);
            }
            assert forall|x: int| 0 <= x < cw.len() implies word_match(#[trigger] cw[x], inv) by {
                assert((pre + cw)[pre.len() + x] == cw[x]);
            }
        }
    }
}

/// All word tests of a group pass exactly when every condition of the group holds.
proof fn lemma_group_words(g: Seq<Condition>, inv: Invocation)
    requires
        forall|k: int| 0 <= k < g.len() ==> !index_invalid(#[trigger] g[k]),
    ensures
        all_match(group_words(g), inv) <==> group_holds(g, inv.args@),
        forall|x: int|
            0 <= x < group_words(g).len() ==> load_word(inv, (#[trigger] group_words(g)[x]).offset)
                is Some,
{
    lemma_words_prefix(g, g.len() as int, inv);
    assert(cond_chunks(g).take(g.len() as int) =~= cond_chunks(g));
}

/// Running the word tests of a group from test `w` on: `on_match` when they all pass, else a
/// jump to the instruction right after the group.
proof fn lemma_words_run(
    prog: Seq<Instruction>,
    base: int,
    ws: Seq<WordTest>,
    m: u32,
    w: int,
    acc: u32,
    inv: Invocation,
)
    requires
        0 <= w <= ws.len(),
        ws.len() < MAX_INSTRUCTIONS,
        0 <= base,
        base + 4 * ws.len() + 1 < prog.len(),
        forall|t: int|
            0 <= t < words_code(ws, m).len() ==> prog[base + t] == #[trigger] words_code(ws, m)[t],
        forall|x: int| 0 <= x < ws.len() ==> load_word(inv, (#[trigger] ws[x]).offset) is Some,
    ensures
        (forall|x: int| w <= x < ws.len() ==> word_match(#[trigger] ws[x], inv)) ==> run(
            prog,
            base + 4 * w,
            acc,
            inv,
        ) == Some(m),
        !(forall|x: int| w <= x < ws.len() ==> word_match(#[trigger] ws[x], inv)) ==> exists|
            a: u32,
        | run(prog, base + 4 * w, acc, inv) == #[trigger] run(prog, base + 4 * ws.len() + 1, a, inv),
    decreases ws.len() - w,
{
    let wc = word_chunks(ws);
    lemma_concat_len4(wc);
    let code = words_code(ws, m);
    if w == ws.len() {
        assert(code[4 * ws.len() as int] == ret(m));
        assert(prog[base + 4 * w] == code[4 * w]);
    } else {
        let sub = wc.take(w);
        assert forall|i: int| 0 <= i < sub.len() implies (#[trigger] sub[i]).len() == 4 by {
            assert(sub[i] == wc[i]);
        }
        lemma_concat_len4(sub);
        lemma_concat_chunk(wc, w);
        let pc = base + 4 * w;
        let word = ws[w];
        let skip = (4 * (ws.len() - 1 - w) + 1) as u32;
        assert(wc[w] == word_check(word, skip));
        assert(skip == 4 * (ws.len() - 1 - w) + 1);
        assert forall|t: int| 0 <= t < 4 implies prog[pc + t] == #[trigger] word_check(word, skip)[t] by {
            assert(code[4 * w + t] == concat(wc)[4 * w + t]);
            assert(prog[base + (4 * w + t)] == code[4 * w + t]);
        }
        let x = load_word(inv, word.offset)->Some_0;
        let acc1 = x & word.mask;
        assert(run(prog, pc, acc, inv) == run(prog, pc + 1, x, inv));
        assert(run(prog, pc + 1, x, inv) == run(prog, pc + 2, acc1, inv));
        lemma_words_run(prog, base, ws, m, w + 1, acc1, inv);
        if acc1 == word.value {
            assert(run(prog, pc + 2, acc1, inv) == run(prog, pc + 4, acc1, inv));
            if !(forall|y: int| w <= y < ws.len() ==> word_match(#[trigger] ws[y], inv)) {
                let y = choose|y: int| w <= y < ws.len() && !word_match(#[trigger] ws[y], inv);
                assert(y != w);
            } else {
                assert forall|y: int| w + 1 <= y < ws.len() implies word_match(#[trigger] ws[y], inv) by {
                }
            }
        } else {
            assert(run(prog, pc + 2, acc1, inv) == run(prog, pc + 3, acc1, inv));
            assert(run(prog, pc + 3, acc1, inv) == run(prog, base + 4 * ws.len() + 1, acc1, inv));
            assert(!word_match(ws[w], inv));
        }
    }
}

/// Running the groups of a rule from group `j` on: `on_match` when one of them holds, else
/// `on_mismatch`.
proof fn lemma_groups_run(
    prog: Seq<Instruction>,
    base: int,
    groups: Seq<RuleGroup>,
    m: u32,
    mm: u32,
    j: int,
    acc: u32,
    inv: Invocation,
)
    requires
        0 <= j <= groups.len(),
        groups.len() > 0,
        0 <= base,
        base + block_code(groups, m, mm).len() <= prog.len(),
        block_code(groups, m, mm).len() <= MAX_INSTRUCTIONS,
        forall|t: int|
            0 <= t < block_code(groups, m, mm).len() ==> prog[base + t]
                == #[trigger] block_code(groups, m, mm)[t],
        forall|q: int, k: int|
            0 <= q < groups.len() && 0 <= k < groups[q]@.len() ==> !index_invalid(
                #[trigger] groups[q]@[k],
            ),
    ensures
        run(prog, base + concat(group_chunks(groups, m).take(j)).len(), acc, inv) == Some(
            if exists|q: int| j <= q < groups.len() && group_holds(#[trigger] groups[q]@, inv.args@) {
                m
            } else {
                mm
            },
        ),
    decreases groups.len() - j,
{
    let gc = group_chunks(groups, m);
    let cat = concat(gc);
    let block = block_code(groups, m, mm);
    assert(block == cat + seq![ret(mm)]);
    if j == groups.len() {
        assert(gc.take(j) =~= gc);
        assert(block[cat.len() as int] == ret(mm));
        assert(prog[base + cat.len()] == block[cat.len() as int]);
    } else {
        lemma_concat_chunk(gc, j);
        lemma_concat_take(gc, j);
        let go = concat(gc.take(j)).len() as int;
        let g = groups[j]@;
        let ws = group_words(g);
        let code = words_code(ws, m);
        assert(gc[j] == code);
        lemma_concat_len4(word_chunks(ws));
        assert forall|t: int| 0 <= t < code.len() implies prog[(base + go) + t] == #[trigger] code[t] by {
            assert(cat[go + t] == gc[j][t]);
            assert(block[go + t] == cat[go + t]);
            assert(prog[base + (go + t)] == block[go + t]);
        }
        assert forall|k: int| 0 <= k < g.len() implies !index_invalid(#[trigger] g[k]) by {
            assert(g[k] == groups[j]@[k]);
        }
        lemma_group_words(g, inv);
        lemma_words_run(prog, base + go, ws, m, 0, acc, inv);
        let next = base + go + 4 * ws.len() + 1;
        assert(next == base + concat(gc.take(j + 1)).len());
        if group_holds(g, inv.args@) {
            assert(run(prog, base + go, acc, inv) == Some(m));
        } else {
            let a = choose|a: u32| run(prog, base + go, acc, inv) == #[trigger] run(prog, next, a, inv);
            lemma_groups_run(prog, base, groups, m, mm, j + 1, a, inv);
            if exists|q: int| j <= q < groups.len() && group_holds(#[trigger] groups[q]@, inv.args@) {
                let q = choose|q: int| j <= q < groups.len() && group_holds(#[trigger] groups[q]@, inv.args@);
                assert(q != j);
                assert(j + 1 <= q < groups.len() && group_holds(groups[q]@, inv.args@));
            }
        }
    }
}

proof fn lemma_block_run(
    prog: Seq<Instruction>,
    base: int,
    rule: SyscallRule,
    m: u32,
    mm: u32,
    acc: u32,
    inv: Invocation,
)
    requires
        0 <= base,
        base + block_code(rule.groups@, m, mm).len() <= prog.len(),
        block_code(rule.groups@, m, mm).len() <= MAX_INSTRUCTIONS,
        forall|t: int|
            0 <= t < block_code(rule.groups@, m, mm).len() ==> prog[base + t]
                == #[trigger] block_code(rule.groups@, m, mm)[t],
        forall|q: int, k: int|
            0 <= q < rule.groups@.len() && 0 <= k < rule.groups@[q]@.len() ==> !index_invalid(
                #[trigger] rule.groups@[q]@[k],
            ),
    ensures
        run(prog, base, acc, inv) == Some(
            if rule.permits(inv.args@) {
                m
            } else {
                mm
            },
        ),
{
    let groups = rule.groups@;
    if groups.len() == 0 {
        assert(prog[base + 0] == block_code(groups, m, mm)[0]);
    } else {
        lemma_groups_run(prog, base, groups, m, mm, 0, acc, inv);
        assert(group_chunks(groups, m).take(0) =~= Seq::<Seq<Instruction>>::empty());
    }
}

/// The action code a rule leads to for an invocation of its syscall.
pub open spec fn rule_action(rule: SyscallRule, m: u32, mm: u32, args: Seq<u64>) -> u32 {
    if rule.permits(args) {
        m
    } else {
        mm
    }
}

proof fn lemma_rules_run(p: Policy, i: int, inv: Invocation)
    requires
        compile_result(p) is Ok,
        inv.arch == audit_arch(p.architecture),
        0 <= i <= p.rules@.len(),
    ensures
        ({
            let m = action_code(p.on_match);
            let mm = action_code(p.on_mismatch);
            let pos = 4 + concat(rule_chunks(p.rules@, m, mm).take(i)).len() as int;
            &&& forall|k: int|
                i <= k < p.rules@.len() && #[trigger] p.rules@[k].syscall_id == inv.nr ==> run(
                    program_of(p),
                    pos,
                    inv.nr,
                    inv,
                ) == Some(rule_action(p.rules@[k], m, mm, inv.args@))
            &&& !(exists|k: int| i <= k < p.rules@.len() && #[trigger] p.rules@[k].syscall_id == inv.nr)
                ==> run(program_of(p), pos, inv.nr, inv) == Some(mm)
        }),
    decreases p.rules@.len() - i,
{
    let m = action_code(p.on_match);
    let mm = action_code(p.on_mismatch);
    let rules = p.rules@;
    let rc = rule_chunks(rules, m, mm);
    let cat = concat(rc);
    let prog = program_of(p);
    let head = header(audit_arch(p.architecture));
    assert(prog == head + cat + seq![ret(mm)]);
    assert(prog.len() <= MAX_INSTRUCTIONS);
    assert forall|x: int| 0 <= x < cat.len() implies prog[4 + x] == #[trigger] cat[x] by {
        assert((head + cat)[4 + x] == cat[x]);
    }
    let pos = 4 + concat(rc.take(i)).len() as int;
    if i == rules.len() {
        assert(rc.take(i) =~= rc);
        assert(prog[pos] == ret(mm));
    } else {
        lemma_concat_chunk(rc, i);
        lemma_concat_take(rc, i);
        let rule = rules[i];
        let block = block_code(rule.groups@, m, mm);
        let chunk = rule_code(rule, m, mm);
        assert(rc[i] == chunk);
        let o = concat(rc.take(i)).len() as int;
        assert forall|t: int| 0 <= t < chunk.len() implies prog[pos + t] == #[trigger] chunk[t] by {
            assert(cat[o + t] == rc[i][t]);
            assert(prog[4 + (o + t)] == cat[o + t]);
        }
        assert forall|t: int| 0 <= t < block.len() implies prog[(pos + 2) + t] == #[trigger] block[t] by {
            assert(chunk[2 + t] == block[t]);
            assert(prog[pos + (2 + t)] == chunk[2 + t]);
        }
        assert(prog[pos] == chunk[0]);
        assert(prog[pos + 1] == chunk[1]);
        assert forall|q: int, k: int|
            0 <= q < rule.groups@.len() && 0 <= k < rule.groups@[q]@.len() implies !index_invalid(
            #[trigger] rule.groups@[q]@[k],
        ) by {
            assert(!flawed(rules[i].groups@[q]@[k], true));
        }
        lemma_block_run(prog, pos + 2, rule, m, mm, inv.nr, inv);
        lemma_rules_run(p, i + 1, inv);
        let next = 4 + concat(rc.take(i + 1)).len() as int;
        assert(next == pos + 2 + block.len());
        if rule.syscall_id == inv.nr {
            assert(run(prog, pos, inv.nr, inv) == run(prog, pos + 2, inv.nr, inv));
            assert forall|k: int|
                i <= k < rules.len() && #[trigger] rules[k].syscall_id == inv.nr implies k == i by {
                if k != i {
                    assert(rules[k].syscall_id != rules[i].syscall_id);
                }
            }
        } else {
            assert(run(prog, pos, inv.nr, inv) == run(prog, pos + 1, inv.nr, inv));
            assert(run(prog, pos + 1, inv.nr, inv) == run(prog, next, inv.nr, inv));
            if exists|k: int| i <= k < rules.len() && #[trigger] rules[k].syscall_id == inv.nr {
                let k = choose|k: int| i <= k < rules.len() && #[trigger] rules[k].syscall_id == inv.nr;
                assert(k != i);
            }
        }
    }
}

/// The compiled filter decides every invocation exactly as the policy does.
pub proof fn lemma_compile_sound(p: Policy, inv: Invocation)
    requires
        compile_result(p) is Ok,
    ensures
        outcome(program_of(p), inv) == Some(action_code(p.decision(inv))),
{
    let m = action_code(p.on_match);
    let mm = action_code(p.on_mismatch);
    let prog = program_of(p);
    let head = header(audit_arch(p.architecture));
    let rc = rule_chunks(p.rules@, m, mm);
    assert(prog == head + concat(rc) + seq![ret(mm)]);
    assert(prog[0] == head[0] && prog[1] == head[1] && prog[2] == head[2] && prog[3] == head[3]);
    assert(concat(rc).len() >= 0);
    assert(run(prog, 0, 0, inv) == run(prog, 1, inv.arch, inv));
    if inv.arch == audit_arch(p.architecture) {
        assert(run(prog, 1, inv.arch, inv) == run(prog, 3, inv.arch, inv));
        assert(run(prog, 3, inv.arch, inv) == run(prog, 4, inv.nr, inv));
        assert(rc.take(0) =~= Seq::<Seq<Instruction>>::empty());
        lemma_rules_run(p, 0, inv);
        if has_rule(p.rules@, inv.nr) {
            let i = choose|i: int| 0 <= i < p.rules@.len() && #[trigger] p.rules@[i].syscall_id == inv.nr;
            assert(0 <= i < p.rules@.len() && p.rules@[i].syscall_id == inv.nr);
        }
    } else {
        assert(run(prog, 1, inv.arch, inv) == run(prog, 2, inv.arch, inv));
    }
}

/// Compiling a policy twice gives the same result, and a compiled program the same bytes.
pub proof fn lemma_compile_deterministic(p: Policy, q: Policy)
    requires
        p == q,
    ensures
        compile_result(p) == compile_result(q),
        compile_result(p) is Ok ==> encode(program_of(p)) == encode(program_of(q)),
{
}

/// A syscall without a rule is resolved to `on_mismatch`.
pub proof fn lemma_absent_syscall(p: Policy, inv: Invocation)
    requires
        compile_result(p) is Ok,
        inv.arch == audit_arch(p.architecture),
        !has_rule(p.rules@, inv.nr),
    ensures
        outcome(program_of(p), inv) == Some(action_code(p.on_mismatch)),
{
    lemma_compile_sound(p, inv);
}

/// A rule without groups resolves every invocation of its syscall to `on_match`.
pub proof fn lemma_unconditional_rule(p: Policy, i: int, inv: Invocation)
    requires
        compile_result(p) is Ok,
        0 <= i < p.rules@.len(),
        p.rules@[i].groups@.len() == 0,
        inv.arch == audit_arch(p.architecture),
        inv.nr == p.rules@[i].syscall_id,
    ensures
        outcome(program_of(p), inv) == Some(action_code(p.on_match)),
{
    lemma_unique_rule(p, i, inv);
}

/// A rule whose only group asks `arg0 == x` and `arg2 == y` (64 bits) resolves an invocation
/// to `on_match` when both arguments are as asked, and to `on_mismatch` when either differs.
pub proof fn lemma_two_argument_group(p: Policy, i: int, x: u64, y: u64, inv: Invocation)
    requires
        compile_result(p) is Ok,
        0 <= i < p.rules@.len(),
        p.rules@[i].groups@.len() == 1,
        p.rules@[i].groups@[0]@ == seq![
            Condition { argument_index: 0, width: Width::Bits64, operator: Operator::Equals, operand: x },
            Condition { argument_index: 2, width: Width::Bits64, operator: Operator::Equals, operand: y },
        ],
        inv.arch == audit_arch(p.architecture),
        inv.nr == p.rules@[i].syscall_id,
    ensures
        inv.args@[0] == x && inv.args@[2] == y ==> outcome(program_of(p), inv) == Some(
            action_code(p.on_match),
        ),
        inv.args@[0] != x || inv.args@[2] != y ==> outcome(program_of(p), inv) == Some(
            action_code(p.on_mismatch),
        ),
{
    lemma_unique_rule(p, i, inv);
    let g = p.rules@[i].groups@[0]@;
    let a0 = inv.args@[0];
    let a2 = inv.args@[2];
    assert(a0 & 0xffff_ffff_ffff_ffffu64 == a0 && x & 0xffff_ffff_ffff_ffffu64 == x) by (bit_vector);
    assert(a2 & 0xffff_ffff_ffff_ffffu64 == a2 && y & 0xffff_ffff_ffff_ffffu64 == y) by (bit_vector);
    assert(g[0].holds(inv.args@) <==> a0 == x);
    assert(g[1].holds(inv.args@) <==> a2 == y);
    if !(a0 == x && a2 == y) {
        assert(!group_holds(p.rules@[i].groups@[0]@, inv.args@));
    }
}

proof fn lemma_unique_rule(p: Policy, i: int, inv: Invocation)
    requires
        compile_result(p) is Ok,
        0 <= i < p.rules@.len(),
        inv.arch == audit_arch(p.architecture),
        inv.nr == p.rules@[i].syscall_id,
    ensures
        outcome(program_of(p), inv) == Some(
            if p.rules@[i].permits(inv.args@) {
                action_code(p.on_match)
            } else {
                action_code(p.on_mismatch)
            },
        ),
{
    lemma_compile_sound(p, inv);
    let j = choose|j: int| 0 <= j < p.rules@.len() && #[trigger] p.rules@[j].syscall_id == inv.nr;
    assert(p.rules@[i].syscall_id == inv.nr);
    assert(j == i);
}

/// A 64-bit masked comparison holds exactly when `arg & mask == operand & mask`.
pub proof fn lemma_masked_equals(c: Condition, mask: u64, args: Seq<u64>)
    requires
        c.width == Width::Bits64,
        c.operator == Operator::MaskedEquals(mask),
    ensures
        c.holds(args) <==> args[c.argument_index as int] & mask == c.operand & mask,
{
}

/// A policy with a zero mask anywhere does not compile.
pub proof fn lemma_zero_mask_rejected(p: Policy, i: int, j: int, k: int)
    requires
        0 <= i < p.rules@.len(),
        0 <= j < p.rules@[i].groups@.len(),
        0 <= k < p.rules@[i].groups@[j]@.len(),
        p.rules@[i].groups@[j]@[k].operator == Operator::MaskedEquals(0),
    ensures
        compile_result(p) is Err,
{
    let c = p.rules@[i].groups@[j]@[k];
    assert(0u64 & 0xffff_ffffu64 == 0) by (bit_vector);
    assert(flawed(c, false));
}

} // verus!
