use vstd::prelude::*;
use crate::model::{
    has_rule, ids_unique, Action, Architecture, Policy, PolicyError, SyscallRule,
};

verus! {

/// Rules in strictly ascending order of syscall id.
pub open spec fn ascending(rules: Seq<SyscallRule>) -> bool {
    forall|i: int, j: int|
        0 <= i < j < rules.len() ==> #[trigger] rules[i].syscall_id < #[trigger] rules[j].syscall_id
}

/// Builds a policy rule by rule, refusing a second rule for a syscall and keeping the rules
/// in ascending order of syscall id.
pub struct PolicyBuilder {
    rules: Vec<SyscallRule>,
    on_match: Action,
    on_mismatch: Action,
    architecture: Architecture,
}

impl PolicyBuilder {
    pub closed spec fn spec_rules(&self) -> Seq<SyscallRule> {
        self.rules@
    }

    pub closed spec fn spec_on_match(&self) -> Action {
        self.on_match
    }

    pub closed spec fn spec_on_mismatch(&self) -> Action {
        self.on_mismatch
    }

    pub closed spec fn spec_architecture(&self) -> Architecture {
        self.architecture
    }

    pub fn new(architecture: Architecture, on_match: Action, on_mismatch: Action) -> (r:
        PolicyBuilder)
        ensures
            r.spec_rules().len() == 0,
            r.spec_on_match() == on_match,
            r.spec_on_mismatch() == on_mismatch,
            r.spec_architecture() == architecture,
    {
        PolicyBuilder { rules: Vec::new(), on_match, on_mismatch, architecture }
    }

    /// Adds a rule; fails when the syscall already has one, leaving the builder as it was.
    pub fn add_rule(&mut self, rule: SyscallRule) -> (r: Result<(), PolicyError>)
        requires
            ascending(old(self).spec_rules()),
        ensures
            ascending(final(self).spec_rules()),
            final(self).spec_on_match() == old(self).spec_on_match(),
            final(self).spec_on_mismatch() == old(self).spec_on_mismatch(),
            final(self).spec_architecture() == old(self).spec_architecture(),
            has_rule(old(self).spec_rules(), rule.syscall_id) ==> r == Err::<(), PolicyError>(
                PolicyError::DuplicateSyscallRule,
            ) && final(self).spec_rules() == old(self).spec_rules(),
            !has_rule(old(self).spec_rules(), rule.syscall_id) ==> r is Ok && exists|k: int|
                0 <= k <= old(self).spec_rules().len() && final(self).spec_rules()
                    == old(self).spec_rules().insert(k, rule),
    {
        let id = rule.syscall_id;
        let n = self.rules.len();
        let mut k: usize = 0;
        while k < n && self.rules[k].syscall_id < id
            invariant
                n == self.rules@.len(),
                k <= n,
                forall|q: int| 0 <= q < k ==> #[trigger] self.rules@[q].syscall_id < id,
            decreases n - k,
        {
            k = k + 1;
        }
        if k < n && self.rules[k].syscall_id == id {
            assert(has_rule(self.rules@, id));
            return Err(PolicyError::DuplicateSyscallRule);
        }
        proof {
            assert forall|q: int| k <= q < n implies #[trigger] self.rules@[q].syscall_id > id by {
                if q > k {
                    assert(self.rules@[k as int].syscall_id < self.rules@[q].syscall_id);
                }
            }
            assert(!has_rule(self.rules@, id));
        }
        let ghost before = self.rules@;
        self.rules.insert(k, rule);
        proof {
            let after = self.rules@;
            assert(after == before.insert(k as int, rule));
            assert forall|i: int, j: int| 0 <= i < j < after.len() implies #[trigger] after[i].syscall_id
                < #[trigger] after[j].syscall_id by {
                if i < k {
                    assert(after[i] == before[i]);
                } else if i > k {
                    assert(after[i] == before[i - 1]);
                }
                if j < k {
                    assert(after[j] == before[j]);
                } else if j > k {
                    assert(after[j] == before[j - 1]);
                }
            }
        }
        Ok(())
    }

    /// Adds a rule that permits the syscall whatever its arguments.
    pub fn allow(&mut self, syscall_id: u32) -> (r: Result<(), PolicyError>)
        requires
            ascending(old(self).spec_rules()),
        ensures
            ascending(final(self).spec_rules()),
            final(self).spec_on_match() == old(self).spec_on_match(),
            final(self).spec_on_mismatch() == old(self).spec_on_mismatch(),
            final(self).spec_architecture() == old(self).spec_architecture(),
            has_rule(old(self).spec_rules(), syscall_id) ==> r == Err::<(), PolicyError>(
                PolicyError::DuplicateSyscallRule,
            ) && final(self).spec_rules() == old(self).spec_rules(),
            !has_rule(old(self).spec_rules(), syscall_id) ==> r is Ok && exists|k: int|
                0 <= k <= old(self).spec_rules().len() && final(self).spec_rules()[k].syscall_id
                    == syscall_id && final(self).spec_rules()[k].groups@.len() == 0
                    && final(self).spec_rules().len() == old(self).spec_rules().len() + 1,
    {
        let rule = SyscallRule { syscall_id, groups: Vec::new() };
        let ghost g = rule;
        let r = self.add_rule(rule);
        proof {
            if !has_rule(old(self).spec_rules(), syscall_id) {
                let k = choose|k: int|
                    0 <= k <= old(self).spec_rules().len() && final(self).spec_rules()
                        == old(self).spec_rules().insert(k, g);
                assert(final(self).spec_rules()[k] == g);
            }
        }
        r
    }

    pub fn build(self) -> (r: Policy)
        requires
            ascending(self.spec_rules()),
        ensures
            r.rules@ == self.spec_rules(),
            r.on_match == self.spec_on_match(),
            r.on_mismatch == self.spec_on_mismatch(),
            r.architecture == self.spec_architecture(),
            ids_unique(r.rules@),
    {
        let p = Policy {
            rules: self.rules,
            on_match: self.on_match,
            on_mismatch: self.on_mismatch,
            architecture: self.architecture,
        };
        assert forall|i: int, j: int|
            0 <= i < p.rules@.len() && 0 <= j < p.rules@.len() && i != j implies #[trigger] p.rules@[i].syscall_id
                != #[trigger] p.rules@[j].syscall_id by {
            if i < j {
                assert(p.rules@[i].syscall_id < p.rules@[j].syscall_id);
            } else {
                assert(p.rules@[j].syscall_id < p.rules@[i].syscall_id);
            }
        }
        p
    }
}

} // verus!
