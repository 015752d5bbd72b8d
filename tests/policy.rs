use syscall_sandbox::builder::PolicyBuilder;
use syscall_sandbox::compiler::{compile, CompileError};
use syscall_sandbox::enforcer::{EnforceError, Enforcer, KernelOutcome, Phase};
use syscall_sandbox::model::{
    Action, Architecture, Condition, Invocation, Operator, Policy, PolicyError, RuleGroup,
    SyscallRule, Width,
};
use syscall_sandbox::program::{CompiledProgram, Instruction};

const X86_64: u32 = 0xC000_003E;
const SYS_READ: u32 = 0;
const SYS_WRITE: u32 = 1;
const SYS_OPENAT: u32 = 257;
const DIR_FD: u64 = 3;
const O_RDONLY_CLOEXEC: u64 = 0o2000000;
const ALLOW: u32 = 0x7fff_0000;
const KILL: u32 = 0x8000_0000;

fn inv(nr: u32, args: [u64; 6]) -> Invocation {
    Invocation { nr, arch: X86_64, args }
}

fn group(conds: Vec<Condition>) -> RuleGroup {
    RuleGroup::new(conds).unwrap()
}

fn policy(rules: Vec<SyscallRule>, on_mismatch: Action) -> Policy {
    Policy { rules, on_match: Action::Allow, on_mismatch, architecture: Architecture::X86_64 }
}

fn openat_policy() -> Policy {
    let mut b = PolicyBuilder::new(Architecture::X86_64, Action::Allow, Action::Terminate);
    b.allow(SYS_READ).unwrap();
    let g = group(vec![
        Condition::equals(0, Width::Bits64, DIR_FD),
        Condition::equals(2, Width::Bits64, O_RDONLY_CLOEXEC),
    ]);
    b.add_rule(SyscallRule { syscall_id: SYS_OPENAT, groups: vec![g] }).unwrap();
    b.build()
}

fn run(prog: &CompiledProgram, i: Invocation) -> Option<u32> {
    prog.evaluate(&i)
}

#[test]
fn compiling_twice_gives_identical_programs() {
    let a = compile(&openat_policy()).unwrap();
    let b = compile(&openat_policy()).unwrap();
    assert_eq!(a.instructions(), b.instructions());
}

#[test]
fn absent_syscall_resolves_to_mismatch() {
    let prog = compile(&openat_policy()).unwrap();
    assert_eq!(run(&prog, inv(SYS_WRITE, [1, 2, 3, 4, 5, 6])), Some(KILL));
    let p = policy(vec![SyscallRule { syscall_id: SYS_READ, groups: vec![] }], Action::ReturnError(1));
    let prog = compile(&p).unwrap();
    assert_eq!(run(&prog, inv(SYS_WRITE, [0; 6])), Some(0x0005_0001));
}

#[test]
fn empty_policy_resolves_everything_to_mismatch() {
    let prog = compile(&policy(vec![], Action::Terminate)).unwrap();
    assert_eq!(run(&prog, inv(SYS_READ, [0; 6])), Some(KILL));
}

#[test]
fn unconditional_rule_matches_every_argument() {
    let prog = compile(&openat_policy()).unwrap();
    for args in [[0u64; 6], [u64::MAX; 6], [7, 0, 9, 1 << 40, 5, 3]] {
        assert_eq!(run(&prog, inv(SYS_READ, args)), Some(ALLOW));
    }
}

#[test]
fn two_argument_group_needs_both() {
    let prog = compile(&openat_policy()).unwrap();
    assert_eq!(run(&prog, inv(SYS_OPENAT, [DIR_FD, 99, O_RDONLY_CLOEXEC, 0, 0, 0])), Some(ALLOW));
    assert_eq!(run(&prog, inv(SYS_OPENAT, [4, 99, O_RDONLY_CLOEXEC, 0, 0, 0])), Some(KILL));
    assert_eq!(run(&prog, inv(SYS_OPENAT, [DIR_FD, 99, 0o2000001, 0, 0, 0])), Some(KILL));
    assert_eq!(
        run(&prog, inv(SYS_OPENAT, [DIR_FD | (1 << 32), 99, O_RDONLY_CLOEXEC, 0, 0, 0])),
        Some(KILL)
    );
}

#[test]
fn openat_end_to_end() {
    let prog = compile(&openat_policy()).unwrap();
    let allowed = inv(SYS_OPENAT, [DIR_FD, 0x1000, O_RDONLY_CLOEXEC, 0, 0, 0]);
    let other_flags = inv(SYS_OPENAT, [DIR_FD, 0x1000, 0o2, 0, 0, 0]);
    assert_eq!(Action::from_code(run(&prog, allowed).unwrap()), Some(Action::Allow));
    assert_eq!(Action::from_code(run(&prog, other_flags).unwrap()), Some(Action::Terminate));
    assert_eq!(Action::from_code(run(&prog, inv(60, [0; 6])).unwrap()), Some(Action::Terminate));
    assert_eq!(run(&prog, inv(SYS_READ, [5, 0, 10, 0, 0, 0])), Some(ALLOW));
}

#[test]
fn masked_equals_compares_masked_bits() {
    let g = group(vec![Condition::masked_equals(1, Width::Bits64, 0xff00_0000_00ff, 0x1200_0000_0034)]);
    let prog = compile(&policy(vec![SyscallRule { syscall_id: 72, groups: vec![g] }], Action::Terminate)).unwrap();
    assert_eq!(run(&prog, inv(72, [0, 0x1211_0000_9934, 0, 0, 0, 0])), Some(ALLOW));
    assert_eq!(run(&prog, inv(72, [0, 0x1200_0000_0034, 0, 0, 0, 0])), Some(ALLOW));
    assert_eq!(run(&prog, inv(72, [0, 0x1300_0000_0034, 0, 0, 0, 0])), Some(KILL));
    assert_eq!(run(&prog, inv(72, [0, 0x1200_0000_0035, 0, 0, 0, 0])), Some(KILL));
}

#[test]
fn zero_mask_fails_to_compile() {
    let g = group(vec![Condition::masked_equals(0, Width::Bits64, 0, 5)]);
    let p = policy(vec![SyscallRule { syscall_id: 16, groups: vec![g] }], Action::Terminate);
    assert!(matches!(compile(&p), Err(CompileError::VacuousMask)));
    let g = group(vec![Condition::masked_equals(0, Width::Bits32, 0xffff_ffff_0000_0000, 5)]);
    let p = policy(vec![SyscallRule { syscall_id: 16, groups: vec![g] }], Action::Terminate);
    assert!(matches!(compile(&p), Err(CompileError::VacuousMask)));
}

#[test]
fn narrow_width_ignores_high_bits() {
    let g = group(vec![Condition::equals(0, Width::Bits32, 7)]);
    let prog = compile(&policy(vec![SyscallRule { syscall_id: 3, groups: vec![g] }], Action::Terminate)).unwrap();
    assert_eq!(run(&prog, inv(3, [(5 << 32) | 7, 0, 0, 0, 0, 0])), Some(ALLOW));
    assert_eq!(run(&prog, inv(3, [8, 0, 0, 0, 0, 0])), Some(KILL));
}

#[test]
fn groups_are_alternatives() {
    let g1 = group(vec![Condition::equals(0, Width::Bits64, 1)]);
    let g2 = group(vec![Condition::equals(1, Width::Bits64, 2)]);
    let prog = compile(&policy(vec![SyscallRule { syscall_id: 9, groups: vec![g1, g2] }], Action::ReturnError(13))).unwrap();
    assert_eq!(run(&prog, inv(9, [1, 0, 0, 0, 0, 0])), Some(ALLOW));
    assert_eq!(run(&prog, inv(9, [0, 2, 0, 0, 0, 0])), Some(ALLOW));
    assert_eq!(run(&prog, inv(9, [0, 0, 0, 0, 0, 0])), Some(0x0005_000d));
}

#[test]
fn foreign_architecture_is_killed() {
    let prog = compile(&openat_policy()).unwrap();
    let i = Invocation { nr: SYS_READ, arch: 0x4000_0003, args: [0; 6] };
    assert_eq!(prog.evaluate(&i), Some(KILL));
}

#[test]
fn program_layout_is_exact() {
    let p = policy(vec![SyscallRule { syscall_id: SYS_READ, groups: vec![] }], Action::Terminate);
    let prog = compile(&p).unwrap();
    let ins = |code: u16, jt: u8, jf: u8, k: u32| Instruction { code, jt, jf, k };
    let expected = vec![
        ins(0x20, 0, 0, 4),
        ins(0x15, 1, 0, X86_64),
        ins(0x06, 0, 0, KILL),
        ins(0x20, 0, 0, 0),
        ins(0x15, 1, 0, SYS_READ),
        ins(0x05, 0, 0, 1),
        ins(0x06, 0, 0, ALLOW),
        ins(0x06, 0, 0, KILL),
    ];
    assert_eq!(prog.instructions(), &expected);
    assert_eq!(prog.len(), 8);
}

#[test]
fn word_checks_are_laid_out_high_word_first() {
    let g = group(vec![Condition::equals(2, Width::Bits64, 0x0000_0001_0000_0002)]);
    let prog = compile(&policy(vec![SyscallRule { syscall_id: 5, groups: vec![g] }], Action::Terminate)).unwrap();
    let v = prog.instructions();
    assert_eq!(v.len(), 4 + 2 + 8 + 1 + 1 + 1);
    assert_eq!(v[5], Instruction { code: 0x05, jt: 0, jf: 0, k: 10 });
    assert_eq!(v[6], Instruction { code: 0x20, jt: 0, jf: 0, k: 36 });
    assert_eq!(v[7], Instruction { code: 0x54, jt: 0, jf: 0, k: 0xffff_ffff });
    assert_eq!(v[8], Instruction { code: 0x15, jt: 1, jf: 0, k: 1 });
    assert_eq!(v[9], Instruction { code: 0x05, jt: 0, jf: 0, k: 5 });
    assert_eq!(v[10], Instruction { code: 0x20, jt: 0, jf: 0, k: 32 });
    assert_eq!(v[12], Instruction { code: 0x15, jt: 1, jf: 0, k: 2 });
    assert_eq!(v[13], Instruction { code: 0x05, jt: 0, jf: 0, k: 1 });
}

#[test]
fn invalid_argument_index_is_rejected() {
    let g = group(vec![Condition::equals(6, Width::Bits64, 0)]);
    let p = policy(vec![SyscallRule { syscall_id: 1, groups: vec![g] }], Action::Terminate);
    assert!(matches!(compile(&p), Err(CompileError::InvalidArgumentIndex)));
}

#[test]
fn unsupported_architecture_is_rejected() {
    let mut p = policy(vec![], Action::Terminate);
    p.architecture = Architecture::X86;
    assert!(matches!(compile(&p), Err(CompileError::UnsupportedArchitecture)));
}

#[test]
fn duplicate_rules_are_rejected() {
    let rules = vec![
        SyscallRule { syscall_id: 4, groups: vec![] },
        SyscallRule { syscall_id: 4, groups: vec![] },
    ];
    assert!(matches!(compile(&policy(rules, Action::Terminate)), Err(CompileError::DuplicateSyscallRule)));
}

#[test]
fn oversized_program_is_rejected() {
    let rules: Vec<SyscallRule> = (0..1363u32).map(|i| SyscallRule { syscall_id: i, groups: vec![] }).collect();
    assert_eq!(compile(&policy(rules, Action::Terminate)).unwrap().len(), 4 + 3 * 1363 + 1);
    let rules: Vec<SyscallRule> = (0..1364u32).map(|i| SyscallRule { syscall_id: i, groups: vec![] }).collect();
    assert!(matches!(compile(&policy(rules, Action::Terminate)), Err(CompileError::ProgramTooLarge)));
}

#[test]
fn empty_group_is_rejected() {
    assert!(matches!(RuleGroup::new(vec![]), Err(PolicyError::EmptyRuleGroup)));
    let g = group(vec![Condition::equals(0, Width::Bits64, 1)]);
    assert_eq!(g.conditions().len(), 1);
}

#[test]
fn builder_rejects_duplicates_and_sorts() {
    let mut b = PolicyBuilder::new(Architecture::Aarch64, Action::Allow, Action::Terminate);
    b.allow(63).unwrap();
    b.allow(56).unwrap();
    b.allow(93).unwrap();
    assert_eq!(b.allow(56), Err(PolicyError::DuplicateSyscallRule));
    let p = b.build();
    let ids: Vec<u32> = p.rules.iter().map(|r| r.syscall_id).collect();
    assert_eq!(ids, vec![56, 63, 93]);
    assert!(compile(&p).is_ok());
}

#[test]
fn action_codes_round_trip() {
    for a in [Action::Allow, Action::Terminate, Action::ReturnError(0), Action::ReturnError(65535)] {
        assert_eq!(Action::from_code(a.code()), Some(a));
    }
    assert_eq!(Action::ReturnError(1).code(), 0x0005_0001);
    assert_eq!(Action::from_code(0x1234), None);
    assert_eq!(Architecture::Aarch64.audit_value(), 0xC000_00B7);
}

#[test]
fn second_install_is_rejected() {
    let mut e = Enforcer::new();
    let prog = compile(&openat_policy()).unwrap();
    let n = prog.len();
    let handed = e.begin_install(prog).unwrap();
    assert_eq!(handed.len(), n);
    assert_eq!(e.phase(), Phase::Pending);
    assert_eq!(e.finish_install(KernelOutcome::Applied), Ok(()));
    assert_eq!(e.phase(), Phase::Sandboxed);
    let again = compile(&policy(vec![], Action::Allow)).unwrap();
    assert_eq!(e.begin_install(again).err(), Some(EnforceError::AlreadyInstalled));
    assert_eq!(e.phase(), Phase::Sandboxed);
}

#[test]
fn kernel_failures_are_fatal() {
    let mut e = Enforcer::new();
    e.begin_install(compile(&openat_policy()).unwrap()).unwrap();
    assert_eq!(e.finish_install(KernelOutcome::Rejected), Err(EnforceError::KernelRejected));
    assert_eq!(e.phase(), Phase::Failed);
    assert_eq!(
        e.begin_install(compile(&openat_policy()).unwrap()).err(),
        Some(EnforceError::AlreadyInstalled)
    );
    let mut e = Enforcer::new();
    e.begin_install(compile(&openat_policy()).unwrap()).unwrap();
    assert_eq!(e.finish_install(KernelOutcome::PartiallyApplied), Err(EnforceError::PartialApplication));
}

#[test]
fn kernel_status_is_read() {
    assert_eq!(KernelOutcome::from_status(0), KernelOutcome::Applied);
    assert_eq!(KernelOutcome::from_status(-22), KernelOutcome::Rejected);
    assert_eq!(KernelOutcome::from_status(4711), KernelOutcome::PartiallyApplied);
}

#[test]
fn operator_is_kept() {
    let c = Condition::masked_equals(3, Width::Bits32, 0xf0, 0x10);
    assert_eq!(c.operator, Operator::MaskedEquals(0xf0));
    assert_eq!(c.mask_bits(), 0xf0);
}

#[test]
fn bytes_follow_the_kernel_record_format() {
    let p = policy(vec![SyscallRule { syscall_id: 0x0102, groups: vec![] }], Action::Terminate);
    let a = compile(&p).unwrap().to_bytes();
    let b = compile(&p).unwrap().to_bytes();
    assert_eq!(a, b);
    assert_eq!(a.len(), 8 * 8);
    assert_eq!(&a[0..8], &[0x20, 0x00, 0, 0, 4, 0, 0, 0]);
    assert_eq!(&a[8..16], &[0x15, 0x00, 1, 0, 0x3e, 0x00, 0x00, 0xc0]);
    assert_eq!(&a[32..40], &[0x15, 0x00, 1, 0, 0x02, 0x01, 0, 0]);
    assert_eq!(&a[48..56], &[0x06, 0x00, 0, 0, 0x00, 0x00, 0xff, 0x7f]);
}
