use vstd::prelude::*;

verus! {

/// Number of argument slots of a syscall on the supported ABIs.
pub const ARG_SLOTS: u8 = 6;

/// Filter return value that lets the syscall proceed.
pub const RET_ALLOW: u32 = 0x7fff_0000;

/// Filter return value that kills the whole process.
pub const RET_KILL_PROCESS: u32 = 0x8000_0000;

/// Filter return value base that fails the syscall with an errno in the low 16 bits.
pub const RET_ERRNO: u32 = 0x0005_0000;

#[derive(Clone, Copy, PartialEq, Eq, Debug, Structural)]
pub enum Architecture {
    X86_64,
    Aarch64,
    X86,
}

/// The audit architecture token the kernel reports for each ABI.
pub open spec fn audit_arch(a: Architecture) -> u32 {
    match a {
        Architecture::X86_64 => 0xC000_003E,
        Architecture::Aarch64 => 0xC000_00B7,
        Architecture::X86 => 0x4000_0003,
    }
}

/// Only 64-bit little-endian ABIs have argument words laid out as the compiler expects.
pub open spec fn arch_supported(a: Architecture) -> bool {
    a != Architecture::X86
}

impl Architecture {
    pub fn audit_value(&self) -> (r: u32)
        ensures
            r == audit_arch(*self),
    {
        match self {
            Architecture::X86_64 => 0xC000_003E,
            Architecture::Aarch64 => 0xC000_00B7,
            Architecture::X86 => 0x4000_0003,
        }
    }

    pub fn is_supported(&self) -> (r: bool)
        ensures
            r == arch_supported(*self),
    {
        match self {
            Architecture::X86 => false,
            _ => true,
        }
    }
}

#[derive(Clone, Copy, PartialEq, Eq, Debug, Structural)]
pub enum Width {
    Bits32,
    Bits64,
}

#[derive(Clone, Copy, PartialEq, Eq, Debug, Structural)]
pub enum Operator {
    Equals,
    MaskedEquals(u64),
}

/// One comparison against one syscall argument.
#[derive(Clone, Copy, PartialEq, Eq, Debug, Structural)]
pub struct Condition {
    pub argument_index: u8,
    pub width: Width,
    pub operator: Operator,
    pub operand: u64,
}

impl Condition {
    /// The bits of the argument that take part in the comparison.
    pub open spec fn effective_mask(self) -> u64 {
        let m: u64 = match self.operator {
            Operator::Equals => 0xffff_ffff_ffff_ffffu64,
            Operator::MaskedEquals(m) => m,
        };
        match self.width {
            Width::Bits32 => m & 0xffff_ffffu64,
            Width::Bits64 => m,
        }
    }

    /// Whether an invocation with arguments `args` satisfies this condition.
    pub open spec fn holds(self, args: Seq<u64>) -> bool {
        args[self.argument_index as int] & self.effective_mask() == self.operand
            & self.effective_mask()
    }

    pub fn mask_bits(&self) -> (r: u64)
        ensures
            r == self.effective_mask(),
    {
        let m: u64 = match self.operator {
            Operator::Equals => 0xffff_ffff_ffff_ffffu64,
            Operator::MaskedEquals(m) => m,
        };
        match self.width {
            Width::Bits32 => m & 0xffff_ffffu64,
            Width::Bits64 => m,
        }
    }

    pub fn equals(argument_index: u8, width: Width, operand: u64) -> (r: Condition)
        ensures
            r == (Condition { argument_index, width, operator: Operator::Equals, operand }),
    {
        Condition { argument_index, width, operator: Operator::Equals, operand }
    }

    pub fn masked_equals(argument_index: u8, width: Width, mask: u64, operand: u64) -> (r:
        Condition)
        ensures
            r == (Condition {
                argument_index,
                width,
                operator: Operator::MaskedEquals(mask),
                operand,
            }),
    {
        Condition { argument_index, width, operator: Operator::MaskedEquals(mask), operand }
    }
}

#[derive(Clone, Copy, PartialEq, Eq, Debug, Structural)]
pub enum Action {
    Allow,
    Terminate,
    ReturnError(u16),
}

/// The filter return value that carries out an action.
pub open spec fn action_code(a: Action) -> u32 {
    match a {
        Action::Allow => RET_ALLOW,
        Action::Terminate => RET_KILL_PROCESS,
        Action::ReturnError(e) => (RET_ERRNO + e) as u32,
    }
}

impl Action {
    pub fn code(&self) -> (r: u32)
        ensures
            r == action_code(*self),
    {
        match self {
            Action::Allow => RET_ALLOW,
            Action::Terminate => RET_KILL_PROCESS,
            Action::ReturnError(e) => RET_ERRNO + *e as u32,
        }
    }

    /// The action a filter return value stands for, if it stands for one.
    pub fn from_code(code: u32) -> (r: Option<Action>)
        ensures
            r matches Some(a) ==> action_code(a) == code,
            r is None ==> forall|a: Action| action_code(a) != code,
    {
        if code == RET_ALLOW {
            Some(Action::Allow)
        } else if code == RET_KILL_PROCESS {
            Some(Action::Terminate)
        } else if RET_ERRNO <= code && code < RET_ERRNO + 0x1_0000 {
            Some(Action::ReturnError((code - RET_ERRNO) as u16))
        } else {
            None
        }
    }
}

/// What the kernel hands the filter for one syscall.
#[derive(Clone, Copy, Debug)]
pub struct Invocation {
    pub nr: u32,
    pub arch: u32,
    pub args: [u64; 6],
}

/// A conjunction of conditions; never empty.
pub struct RuleGroup {
    conditions: Vec<Condition>,
}

#[derive(Clone, Copy, PartialEq, Eq, Debug, Structural)]
pub enum PolicyError {
    EmptyRuleGroup,
    DuplicateSyscallRule,
}

impl View for RuleGroup {
    type V = Seq<Condition>;

    closed spec fn view(&self) -> Seq<Condition> {
        self.conditions@
    }
}

impl RuleGroup {
    #[verifier::type_invariant]
    spec fn nonempty(&self) -> bool {
        self.conditions@.len() > 0
    }

    pub fn new(conditions: Vec<Condition>) -> (r: Result<RuleGroup, PolicyError>)
        ensures
            conditions@.len() == 0 ==> r == Err::<RuleGroup, PolicyError>(
                PolicyError::EmptyRuleGroup,
            ),
            conditions@.len() > 0 ==> (r matches Ok(g) && g@ == conditions@),
    {
        if conditions.len() == 0 {
            Err(PolicyError::EmptyRuleGroup)
        } else {
            Ok(RuleGroup { conditions })
        }
    }

    pub fn conditions(&self) -> (r: &Vec<Condition>)
        ensures
            r@ == self@,
            r@.len() > 0,
    {
        proof {
            use_type_invariant(self);
        }
        &self.conditions
    }
}

/// Whether every condition of a group holds.
pub open spec fn group_holds(g: Seq<Condition>, args: Seq<u64>) -> bool {
    forall|k: int| 0 <= k < g.len() ==> (#[trigger] g[k]).holds(args)
}

/// The permission rule for one syscall: unconditional when `groups` is empty.
pub struct SyscallRule {
    pub syscall_id: u32,
    pub groups: Vec<RuleGroup>,
}

impl SyscallRule {
    /// Whether the rule admits an invocation with arguments `args`.
    pub open spec fn permits(&self, args: Seq<u64>) -> bool {
        self.groups@.len() == 0 || exists|j: int|
            0 <= j < self.groups@.len() && group_holds(#[trigger] self.groups@[j]@, args)
    }
}

pub struct Policy {
    pub rules: Vec<SyscallRule>,
    pub on_match: Action,
    pub on_mismatch: Action,
    pub architecture: Architecture,
}

/// No two rules name the same syscall.
pub open spec fn ids_unique(rules: Seq<SyscallRule>) -> bool {
    forall|i: int, j: int|
        0 <= i < rules.len() && 0 <= j < rules.len() && i != j ==> #[trigger] rules[i].syscall_id
            != #[trigger] rules[j].syscall_id
}

pub open spec fn has_rule(rules: Seq<SyscallRule>, nr: u32) -> bool {
    exists|i: int| 0 <= i < rules.len() && #[trigger] rules[i].syscall_id == nr
}

impl Policy {
    /// The action the policy prescribes for an invocation: a foreign ABI is killed, a
    /// syscall without a rule gets `on_mismatch`, one with a rule gets `on_match` exactly
    /// when the rule permits the arguments.
    pub open spec fn decision(&self, inv: Invocation) -> Action {
        if inv.arch != audit_arch(self.architecture) {
            Action::Terminate
        } else if has_rule(self.rules@, inv.nr) {
            let i = choose|i: int| 0 <= i < self.rules@.len() && #[trigger] self.rules@[i].syscall_id == inv.nr;
            if self.rules@[i].permits(inv.args@) {
                self.on_match
            } else {
                self.on_mismatch
            }
        } else {
            self.on_mismatch
        }
    }
}

} // verus!
