//! The registers whose definitions and uses are tracked: the eight 32-bit
//! general-purpose registers and five status flags.

use vstd::prelude::*;

verus! {

/// A tracked register. Sub-registers count as the 32-bit register that holds
/// them.
#[derive(Copy, Clone, Debug, PartialEq, Eq, PartialOrd, Ord, Hash, Structural)]
pub enum UsedRegister {
    Eax,
    Ecx,
    Edx,
    Ebx,
    Esp,
    Ebp,
    Esi,
    Edi,
    Cf,
    Pf,
    Af,
    Zf,
    Sf,
}

/// The number of tracked registers.
pub const REGISTER_COUNT: usize = 13;

/// The decoder's bit for the sign flag in a set of status flags.
pub const RFLAGS_SF: u32 = 0x02;

/// The decoder's bit for the zero flag in a set of status flags.
pub const RFLAGS_ZF: u32 = 0x04;

/// The decoder's bit for the auxiliary carry flag in a set of status flags.
pub const RFLAGS_AF: u32 = 0x08;

/// The decoder's bit for the carry flag in a set of status flags.
pub const RFLAGS_CF: u32 = 0x10;

/// The decoder's bit for the parity flag in a set of status flags.
pub const RFLAGS_PF: u32 = 0x20;

/// The decoder's number for the register `EAX`; `ECX`, `EDX`, `EBX`, `ESP`,
/// `EBP`, `ESI` and `EDI` follow it in this order.
pub const DECODER_EAX: u32 = 37;

impl UsedRegister {
    /// The position of the register's bit in a [`RegisterSet`].
    pub open spec fn spec_index(self) -> u16 {
        match self {
            UsedRegister::Eax => 0,
            UsedRegister::Ecx => 1,
            UsedRegister::Edx => 2,
            UsedRegister::Ebx => 3,
            UsedRegister::Esp => 4,
            UsedRegister::Ebp => 5,
            UsedRegister::Esi => 6,
            UsedRegister::Edi => 7,
            UsedRegister::Cf => 8,
            UsedRegister::Pf => 9,
            UsedRegister::Af => 10,
            UsedRegister::Zf => 11,
            UsedRegister::Sf => 12,
        }
    }

    /// The register whose bit stands at position `index`.
    pub open spec fn spec_from_index(index: int) -> Option<UsedRegister> {
        if index == 0 {
            Some(UsedRegister::Eax)
        } else if index == 1 {
            Some(UsedRegister::Ecx)
        } else if index == 2 {
            Some(UsedRegister::Edx)
        } else if index == 3 {
            Some(UsedRegister::Ebx)
        } else if index == 4 {
            Some(UsedRegister::Esp)
        } else if index == 5 {
            Some(UsedRegister::Ebp)
        } else if index == 6 {
            Some(UsedRegister::Esi)
        } else if index == 7 {
            Some(UsedRegister::Edi)
        } else if index == 8 {
            Some(UsedRegister::Cf)
        } else if index == 9 {
            Some(UsedRegister::Pf)
        } else if index == 10 {
            Some(UsedRegister::Af)
        } else if index == 11 {
            Some(UsedRegister::Zf)
        } else if index == 12 {
            Some(UsedRegister::Sf)
        } else {
            None
        }
    }

    pub fn index(self) -> (r: u16)
        ensures
            r == self.spec_index(),
            r < 13,
            Self::spec_from_index(r as int) == Some(self),
    {
        match self {
            UsedRegister::Eax => 0,
            UsedRegister::Ecx => 1,
            UsedRegister::Edx => 2,
            UsedRegister::Ebx => 3,
            UsedRegister::Esp => 4,
            UsedRegister::Ebp => 5,
            UsedRegister::Esi => 6,
            UsedRegister::Edi => 7,
            UsedRegister::Cf => 8,
            UsedRegister::Pf => 9,
            UsedRegister::Af => 10,
            UsedRegister::Zf => 11,
            UsedRegister::Sf => 12,
        }
    }

    pub fn from_index(index: usize) -> (r: Option<UsedRegister>)
        ensures
            r == Self::spec_from_index(index as int),
            r is Some <==> index < 13,
            r matches Some(reg) ==> reg.spec_index() == index,
    {
        match index {
            0 => Some(UsedRegister::Eax),
            1 => Some(UsedRegister::Ecx),
            2 => Some(UsedRegister::Edx),
            3 => Some(UsedRegister::Ebx),
            4 => Some(UsedRegister::Esp),
            5 => Some(UsedRegister::Ebp),
            6 => Some(UsedRegister::Esi),
            7 => Some(UsedRegister::Edi),
            8 => Some(UsedRegister::Cf),
            9 => Some(UsedRegister::Pf),
            10 => Some(UsedRegister::Af),
            11 => Some(UsedRegister::Zf),
            12 => Some(UsedRegister::Sf),
            _ => None,
        }
    }
}

/// A set of tracked registers, one bit each.
#[derive(Copy, Clone, Debug, PartialEq, Eq, Structural)]
pub struct RegisterSet {
    bits: u16,
}

pub open spec fn bit_of(bits: u16, index: u16) -> bool {
    (bits >> index) & 1 == 1
}

proof fn lemma_bit_or(a: u16, b: u16, i: u16)
    requires
        i < 16,
    ensures
        bit_of(a | b, i) == (bit_of(a, i) || bit_of(b, i)),
{
    assert(((a | b) >> i) & 1 == 1 <==> ((a >> i) & 1 == 1 || (b >> i) & 1 == 1)) by (bit_vector)
        requires
            i < 16,
    ;
}

proof fn lemma_bit_single(i: u16, j: u16)
    requires
        i < 16,
        j < 16,
    ensures
        bit_of(1u16 << i, j) == (i == j),
        !bit_of(0u16, j),
{
    assert((((1u16 << i) >> j) & 1 == 1) <==> i == j) by (bit_vector)
        requires
            i < 16,
            j < 16,
    ;
    assert((0u16 >> j) & 1 == 0) by (bit_vector);
}

proof fn lemma_bit_test(bits: u16, i: u16)
    requires
        i < 16,
    ensures
        (bits & (1u16 << i) != 0) == bit_of(bits, i),
{
    assert((bits & (1u16 << i) != 0) <==> ((bits >> i) & 1 == 1)) by (bit_vector)
        requires
            i < 16,
    ;
}

proof fn lemma_bits_in_range(bits: u16, i: u16)
    requires
        bits < 0x2000,
        13 <= i < 16,
    ensures
        !bit_of(bits, i),
{
    assert((bits >> i) & 1 == 0) by (bit_vector)
        requires
            bits < 0x2000,
            13 <= i < 16,
    ;
}

proof fn lemma_or_in_range(a: u16, b: u16)
    requires
        a < 0x2000,
        b < 0x2000,
    ensures
        (a | b) < 0x2000,
{
    assert((a | b) < 0x2000) by (bit_vector)
        requires
            a < 0x2000,
            b < 0x2000,
    ;
}

proof fn lemma_single_in_range(i: u16)
    requires
        i < 13,
    ensures
        (1u16 << i) < 0x2000,
{
    assert((1u16 << i) < 0x2000) by (bit_vector)
        requires
            i < 13,
    ;
}

/// Whether a set of status flags, as the decoder reports it, holds the flag
/// with the bit `mask`.
pub open spec fn has_flag(flags: u32, mask: u32) -> bool {
    flags & mask != 0
}

impl RegisterSet {
    /// Whether the register belongs to the set.
    pub closed spec fn has(self, r: UsedRegister) -> bool {
        bit_of(self.bits, r.spec_index())
    }

    /// The set as a 13-bit value: bit `i` stands for the register with index
    /// `i`.
    pub closed spec fn spec_bits(self) -> u16 {
        self.bits
    }

    /// Only the thirteen bits that stand for a register are used.
    pub closed spec fn wf(self) -> bool {
        self.bits < 0x2000
    }

    pub fn empty() -> (r: RegisterSet)
        ensures
            r.wf(),
            r.spec_bits() == 0,
            forall|x: UsedRegister| !r.has(x),
    {
        proof {
            assert forall|x: UsedRegister| !bit_of(0u16, x.spec_index()) by {
                lemma_bit_single(0, x.spec_index());
            }
        }
        RegisterSet { bits: 0 }
    }

    /// The set that holds `register` and nothing else.
    pub fn from_register(register: UsedRegister) -> (r: RegisterSet)
        ensures
            r.wf(),
            forall|x: UsedRegister| r.has(x) == (x == register),
    {
        let i = register.index();
        proof {
            lemma_single_in_range(i);
            assert forall|x: UsedRegister| bit_of(1u16 << i, x.spec_index()) == (x == register) by {
                lemma_bit_single(i, x.spec_index());
            }
        }
        RegisterSet { bits: 1u16 << i }
    }

    pub fn bits(&self) -> (r: u16)
        ensures
            r == self.spec_bits(),
    {
        self.bits
    }

    /// The set with the given bits, if they all stand for a register.
    pub fn from_bits(bits: u16) -> (r: Option<RegisterSet>)
        ensures
            r is Some <==> bits < 0x2000,
            r matches Some(s) ==> s.wf() && s.spec_bits() == bits,
    {
        if bits < 0x2000 {
            Some(RegisterSet { bits })
        } else {
            None
        }
    }

    pub fn contains(&self, register: UsedRegister) -> (r: bool)
        ensures
            r == self.has(register),
    {
        let i = register.index();
        proof {
            lemma_bit_test(self.bits, i);
        }
        self.bits & (1u16 << i) != 0
    }

    pub fn union(self, other: RegisterSet) -> (r: RegisterSet)
        requires
            self.wf(),
            other.wf(),
        ensures
            r.wf(),
            forall|x: UsedRegister| r.has(x) == (self.has(x) || other.has(x)),
    {
        proof {
            lemma_or_in_range(self.bits, other.bits);
            assert forall|x: UsedRegister|
                bit_of(self.bits | other.bits, x.spec_index()) == (bit_of(self.bits, x.spec_index())
                    || bit_of(other.bits, x.spec_index())) by {
                lemma_bit_or(self.bits, other.bits, x.spec_index());
            }
        }
        RegisterSet { bits: self.bits | other.bits }
    }

    /// Walks the registers of the set in ascending index order.
    #[inline]
    pub fn iter_used_registers(&self) -> (r: RegisterSetIterator)
        ensures
            r.set() == *self,
            r.position() == 0,
    {
        RegisterSetIterator { set: *self, current: 0 }
    }

    /// The status flags among `rflags`, a set of flags as the decoder reports
    /// it, that are tracked.
    pub fn from_rflags(rflags: u32) -> (r: RegisterSet)
        ensures
            r.wf(),
            r.has(UsedRegister::Cf) == has_flag(rflags, RFLAGS_CF),
            r.has(UsedRegister::Pf) == has_flag(rflags, RFLAGS_PF),
            r.has(UsedRegister::Af) == has_flag(rflags, RFLAGS_AF),
            r.has(UsedRegister::Zf) == has_flag(rflags, RFLAGS_ZF),
            r.has(UsedRegister::Sf) == has_flag(rflags, RFLAGS_SF),
            forall|x: UsedRegister| x.spec_index() < 8 ==> !r.has(x),
    {
        let mut set = RegisterSet::empty();
        if rflags & RFLAGS_CF != 0 {
            set = set.union(RegisterSet::from_register(UsedRegister::Cf));
        }
        if rflags & RFLAGS_PF != 0 {
            set = set.union(RegisterSet::from_register(UsedRegister::Pf));
        }
        if rflags & RFLAGS_AF != 0 {
            set = set.union(RegisterSet::from_register(UsedRegister::Af));
        }
        if rflags & RFLAGS_ZF != 0 {
            set = set.union(RegisterSet::from_register(UsedRegister::Zf));
        }
        if rflags & RFLAGS_SF != 0 {
            set = set.union(RegisterSet::from_register(UsedRegister::Sf));
        }
        set
    }

    /// The general-purpose register, if any, that the decoder numbers
    /// `register`: the argument is the number of a full 32-bit register.
    pub fn from_decoder_register(register: u32) -> (r: RegisterSet)
        ensures
            r.wf(),
            forall|x: UsedRegister|
                r.has(x) == (x.spec_index() < 8 && register == DECODER_EAX + x.spec_index()),
    {
        if register < DECODER_EAX || register >= DECODER_EAX + 8 {
            return RegisterSet::empty();
        }
        let index: usize = (register - DECODER_EAX) as usize;
        match UsedRegister::from_index(index) {
            Some(reg) => RegisterSet::from_register(reg),
            None => RegisterSet::empty(),
        }
    }

    /// Two sets with the same registers are the same set.
    pub proof fn lemma_extensional(self, other: RegisterSet)
        requires
            self.wf(),
            other.wf(),
            forall|x: UsedRegister| self.has(x) == other.has(x),
        ensures
            self == other,
    {
        let a = self.bits;
        let b = other.bits;
        assert forall|i: u16| i < 16 implies bit_of(a, i) == bit_of(b, i) by {
            if i < 13 {
                let x = UsedRegister::spec_from_index(i as int).unwrap();
                assert(x.spec_index() == i);
                assert(self.has(x) == other.has(x));
            } else {
                lemma_bits_in_range(a, i);
                lemma_bits_in_range(b, i);
            }
        }
        assert(bit_of(a, 0) == bit_of(b, 0));
        assert(bit_of(a, 1) == bit_of(b, 1));
        assert(bit_of(a, 2) == bit_of(b, 2));
        assert(bit_of(a, 3) == bit_of(b, 3));
        assert(bit_of(a, 4) == bit_of(b, 4));
        assert(bit_of(a, 5) == bit_of(b, 5));
        assert(bit_of(a, 6) == bit_of(b, 6));
        assert(bit_of(a, 7) == bit_of(b, 7));
        assert(bit_of(a, 8) == bit_of(b, 8));
        assert(bit_of(a, 9) == bit_of(b, 9));
        assert(bit_of(a, 10) == bit_of(b, 10));
        assert(bit_of(a, 11) == bit_of(b, 11));
        assert(bit_of(a, 12) == bit_of(b, 12));
        assert(bit_of(a, 13) == bit_of(b, 13));
        assert(bit_of(a, 14) == bit_of(b, 14));
        assert(bit_of(a, 15) == bit_of(b, 15));
        assert(a == b) by (bit_vector)
            requires
                ((a >> 0) & 1 == 1) == ((b >> 0) & 1 == 1),
                ((a >> 1) & 1 == 1) == ((b >> 1) & 1 == 1),
                ((a >> 2) & 1 == 1) == ((b >> 2) & 1 == 1),
                ((a >> 3) & 1 == 1) == ((b >> 3) & 1 == 1),
                ((a >> 4) & 1 == 1) == ((b >> 4) & 1 == 1),
                ((a >> 5) & 1 == 1) == ((b >> 5) & 1 == 1),
                ((a >> 6) & 1 == 1) == ((b >> 6) & 1 == 1),
                ((a >> 7) & 1 == 1) == ((b >> 7) & 1 == 1),
                ((a >> 8) & 1 == 1) == ((b >> 8) & 1 == 1),
                ((a >> 9) & 1 == 1) == ((b >> 9) & 1 == 1),
                ((a >> 10) & 1 == 1) == ((b >> 10) & 1 == 1),
                ((a >> 11) & 1 == 1) == ((b >> 11) & 1 == 1),
                ((a >> 12) & 1 == 1) == ((b >> 12) & 1 == 1),
                ((a >> 13) & 1 == 1) == ((b >> 13) & 1 == 1),
                ((a >> 14) & 1 == 1) == ((b >> 14) & 1 == 1),
                ((a >> 15) & 1 == 1) == ((b >> 15) & 1 == 1),
        ;
    }
}

/// Walks the registers of a set in ascending index order.
pub struct RegisterSetIterator {
    set: RegisterSet,
    current: usize,
}

impl RegisterSetIterator {
    /// The set that is walked.
    pub closed spec fn set(self) -> RegisterSet {
        self.set
    }

    /// The index from which the walk goes on.
    pub closed spec fn position(self) -> int {
        self.current as int
    }

    /// The next register of the set at or after the current position, or
    /// `None` when there is no other.
    pub fn next(&mut self) -> (r: Option<UsedRegister>)
        ensures
            final(self).set() == old(self).set(),
            match r {
                Some(reg) => {
                    &&& old(self).position() <= reg.spec_index()
                    &&& final(self).position() == reg.spec_index() + 1
                    &&& old(self).set().has(reg)
                    &&& forall|x: UsedRegister|
                        old(self).position() <= x.spec_index() < reg.spec_index() ==> !old(
                            self,
                        ).set().has(x)
                },
                None => {
                    &&& forall|x: UsedRegister|
                        old(self).position() <= x.spec_index() ==> !old(self).set().has(x)
                    &&& final(self).position() >= 13
                    &&& final(self).position() >= old(self).position()
                },
            },
    {
        while self.current < REGISTER_COUNT
            invariant
                self.set == old(self).set,
                old(self).current <= self.current,
                forall|x: UsedRegister|
                    old(self).current <= x.spec_index() < self.current ==> !old(self).set().has(x),
            decreases REGISTER_COUNT - self.current,
        {
            let current = UsedRegister::from_index(self.current).unwrap();
            self.current = self.current + 1;
            if self.set.contains(current) {
                return Some(current);
            }
        }
        None
    }
}

} // verus!
