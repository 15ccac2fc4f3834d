//! The per-instruction record that the dataset keeps of each candidate
//! instruction.

use vstd::prelude::*;
use crate::decoder::{
    Decoded, ACCESS_COND_READ, ACCESS_COND_WRITE, ACCESS_READ, ACCESS_READ_COND_WRITE,
    ACCESS_READ_WRITE, ACCESS_WRITE, FLOW_EXCEPTION, FLOW_INDIRECT_BRANCH, FLOW_RETURN,
    FLOW_UNCONDITIONAL_BRANCH, MAX_INSTRUCTION_LENGTH, OP_KIND_NEAR_BRANCH32,
};
use crate::registers::{has_flag, RegisterSet, UsedRegister, DECODER_EAX, RFLAGS_AF, RFLAGS_CF, RFLAGS_PF, RFLAGS_SF, RFLAGS_ZF};

verus! {

/// Whether an address begins a true instruction.
#[derive(Copy, Clone, Debug, PartialEq, Eq, Structural)]
pub enum Label {
    Code,
    NotCode,
}

/// The features of one candidate instruction.
#[derive(Copy, Clone, Debug, PartialEq, Eq, Structural)]
pub struct InstructionFeature {
    /// The length in bytes.
    pub size: u8,
    /// The operation code.
    pub code: u16,
    /// The target, where an operand is a near 32-bit branch.
    pub jump_target: Option<u32>,
    /// Whether control may pass on to the instruction that follows.
    pub falls_through: bool,
    /// The registers that the instruction reads.
    pub uses: RegisterSet,
    /// The registers that the instruction writes.
    pub defines: RegisterSet,
}

/// Whether the access with the decoder's number `access` reads the register.
pub open spec fn access_reads(access: u8) -> bool {
    access == ACCESS_READ || access == ACCESS_READ_WRITE || access == ACCESS_COND_READ || access
        == ACCESS_READ_COND_WRITE
}

/// Whether the access with the decoder's number `access` writes the register.
pub open spec fn access_writes(access: u8) -> bool {
    access == ACCESS_WRITE || access == ACCESS_READ_WRITE || access == ACCESS_COND_WRITE || access
        == ACCESS_READ_COND_WRITE
}

/// Whether the status flags `flags`, as the decoder reports them, hold the
/// tracked flag `x`.
pub open spec fn flags_hold(flags: u32, x: UsedRegister) -> bool {
    match x {
        UsedRegister::Cf => has_flag(flags, RFLAGS_CF),
        UsedRegister::Pf => has_flag(flags, RFLAGS_PF),
        UsedRegister::Af => has_flag(flags, RFLAGS_AF),
        UsedRegister::Zf => has_flag(flags, RFLAGS_ZF),
        UsedRegister::Sf => has_flag(flags, RFLAGS_SF),
        _ => false,
    }
}

/// Whether the decoder's register number `register` is that of the tracked
/// general-purpose register `x`.
pub open spec fn names_register(register: u32, x: UsedRegister) -> bool {
    x.spec_index() < 8 && register == DECODER_EAX + x.spec_index()
}

/// Whether the decoded instruction reads the tracked register `x`.
pub open spec fn decoded_uses(d: Decoded, x: UsedRegister) -> bool {
    flags_hold(d.rflags_read, x) || exists|k: int|
        0 <= k < d.registers@.len() && access_reads((#[trigger] d.registers@[k]).1)
            && names_register(d.registers@[k].0, x)
}

/// Whether the decoded instruction writes the tracked register `x`.
pub open spec fn decoded_defines(d: Decoded, x: UsedRegister) -> bool {
    flags_hold(d.rflags_modified, x) || exists|k: int|
        0 <= k < d.registers@.len() && access_writes((#[trigger] d.registers@[k]).1)
            && names_register(d.registers@[k].0, x)
}

/// Whether control may pass from an instruction with this flow to the one
/// that follows it.
pub open spec fn flow_falls_through(flow_control: u8) -> bool {
    !(flow_control == FLOW_UNCONDITIONAL_BRANCH || flow_control == FLOW_INDIRECT_BRANCH
        || flow_control == FLOW_RETURN || flow_control == FLOW_EXCEPTION)
}

impl InstructionFeature {
    /// Both register sets use only the bits that stand for a register.
    pub open spec fn wf(self) -> bool {
        self.uses.wf() && self.defines.wf()
    }

    /// The feature record that belongs to the decoded instruction `d`.
    pub open spec fn describes(self, d: Decoded) -> bool {
        &&& self.wf()
        &&& self.size == d.len
        &&& self.code == d.code
        &&& self.jump_target == (if d.op_kinds@.contains(OP_KIND_NEAR_BRANCH32) {
            Some(d.near_branch32)
        } else {
            None
        })
        &&& self.falls_through == flow_falls_through(d.flow_control)
        &&& forall|x: UsedRegister| self.uses.has(x) == decoded_uses(d, x)
        &&& forall|x: UsedRegister| self.defines.has(x) == decoded_defines(d, x)
    }

    /// A decoded instruction has one feature record only.
    pub proof fn lemma_describes_unique(self, other: InstructionFeature, d: Decoded)
        requires
            self.describes(d),
            other.describes(d),
        ensures
            self == other,
    {
        assert forall|x: UsedRegister| self.uses.has(x) == other.uses.has(x) by {
            assert(self.uses.has(x) == decoded_uses(d, x));
            assert(other.uses.has(x) == decoded_uses(d, x));
        }
        assert forall|x: UsedRegister| self.defines.has(x) == other.defines.has(x) by {
            assert(self.defines.has(x) == decoded_defines(d, x));
            assert(other.defines.has(x) == decoded_defines(d, x));
        }
        self.uses.lemma_extensional(other.uses);
        self.defines.lemma_extensional(other.defines);
    }

    /// The registers that the listed accesses read (`!writes`) or write
    /// (`writes`), together with the tracked flags among `flags`.
    fn collect_registers(registers: &Vec<(u32, u8)>, flags: u32, writes: bool) -> (r: RegisterSet)
        ensures
            r.wf(),
            forall|x: UsedRegister|
                r.has(x) == (flags_hold(flags, x) || exists|k: int|
                    0 <= k < registers@.len() && (if writes {
                        access_writes((#[trigger] registers@[k]).1)
                    } else {
                        access_reads(registers@[k].1)
                    }) && names_register(registers@[k].0, x)),
    {
        let mut set = RegisterSet::empty();
        let mut i: usize = 0;
        while i < registers.len()
            invariant
                0 <= i <= registers@.len(),
                set.wf(),
                forall|x: UsedRegister|
                    set.has(x) == exists|k: int|
                        0 <= k < i && (if writes {
                            access_writes((#[trigger] registers@[k]).1)
                        } else {
                            access_reads(registers@[k].1)
                        }) && names_register(registers@[k].0, x),
            decreases registers@.len() - i,
        {
            let (register, access) = registers[i];
            let counts = if writes {
                access == ACCESS_WRITE || access == ACCESS_READ_WRITE || access == ACCESS_COND_WRITE
                    || access == ACCESS_READ_COND_WRITE
            } else {
                access == ACCESS_READ || access == ACCESS_READ_WRITE || access == ACCESS_COND_READ
                    || access == ACCESS_READ_COND_WRITE
            };
            let ghost before = set;
            if counts {
                set = set.union(RegisterSet::from_decoder_register(register));
            }
            proof {
                assert forall|x: UsedRegister|
                    set.has(x) == exists|k: int|
                        0 <= k < i + 1 && (if writes {
                            access_writes((#[trigger] registers@[k]).1)
                        } else {
                            access_reads(registers@[k].1)
                        }) && names_register(registers@[k].0, x) by {
                    let hit = |k: int|
                        (if writes {
                            access_writes(registers@[k].1)
                        } else {
                            access_reads(registers@[k].1)
                        }) && names_register(registers@[k].0, x);
                    if before.has(x) {
                        let k = choose|k: int|
                            0 <= k < i && (if writes {
                                access_writes((#[trigger] registers@[k]).1)
                            } else {
                                access_reads(registers@[k].1)
                            }) && names_register(registers@[k].0, x);
                        assert(hit(k));
                    }
                    if counts && names_register(register, x) {
                        assert(hit(i as int));
                    }
                }
            }
            i += 1;
        }
        let tail = RegisterSet::from_rflags(flags);
        let r = set.union(tail);
        proof {
            assert forall|x: UsedRegister| tail.has(x) == flags_hold(flags, x) by {
                match x {
                    UsedRegister::Cf => {},
                    UsedRegister::Pf => {},
                    UsedRegister::Af => {},
                    UsedRegister::Zf => {},
                    UsedRegister::Sf => {},
                    _ => {
                        assert(x.spec_index() < 8);
                    },
                }
            }
        }
        r
    }

    /// The feature record of a decoded instruction.
    pub fn from_decoded(d: &Decoded) -> (r: InstructionFeature)
        requires
            d.len <= MAX_INSTRUCTION_LENGTH,
        ensures
            r.describes(*d),
    {
        let mut near = false;
        let mut i: usize = 0;
        while i < d.op_kinds.len()
            invariant
                0 <= i <= d.op_kinds@.len(),
                near == d.op_kinds@.subrange(0, i as int).contains(OP_KIND_NEAR_BRANCH32),
            decreases d.op_kinds@.len() - i,
        {
            let ghost before = d.op_kinds@.subrange(0, i as int);
            let ghost after = d.op_kinds@.subrange(0, i + 1);
            proof {
                if before.contains(OP_KIND_NEAR_BRANCH32) {
                    let k = choose|k: int| 0 <= k < before.len() && before[k] == OP_KIND_NEAR_BRANCH32;
                    assert(after[k] == OP_KIND_NEAR_BRANCH32);
                }
                if after.contains(OP_KIND_NEAR_BRANCH32) && d.op_kinds@[i as int]
                    != OP_KIND_NEAR_BRANCH32 {
                    let k = choose|k: int| 0 <= k < after.len() && after[k] == OP_KIND_NEAR_BRANCH32;
                    assert(before[k] == OP_KIND_NEAR_BRANCH32);
                }
                if d.op_kinds@[i as int] == OP_KIND_NEAR_BRANCH32 {
                    assert(after[i as int] == OP_KIND_NEAR_BRANCH32);
                }
            }
            if d.op_kinds[i] == OP_KIND_NEAR_BRANCH32 {
                near = true;
            }
            i += 1;
        }
        assert(d.op_kinds@.subrange(0, i as int) =~= d.op_kinds@);
        let flow = d.flow_control;
        InstructionFeature {
            size: d.len as u8,
            code: d.code,
            jump_target: if near { Some(d.near_branch32) } else { None },
            falls_through: !(flow == FLOW_UNCONDITIONAL_BRANCH || flow == FLOW_INDIRECT_BRANCH || flow
                == FLOW_RETURN || flow == FLOW_EXCEPTION),
            uses: Self::collect_registers(&d.registers, d.rflags_read, false),
            defines: Self::collect_registers(&d.registers, d.rflags_modified, true),
        }
    }
}

} // verus!
