//! The x86 decoder, as far as the library reads it: one instruction decoded
//! in 32-bit mode at a position of a byte slice, and the decoder's names for
//! its operation codes.

use vstd::prelude::*;

verus! {

/// What the decoder reports of one instruction, as plain numbers.
#[derive(Clone, Debug, PartialEq, Eq)]
pub struct Decoded {
    /// The number of bytes that the instruction takes.
    pub len: usize,
    /// The operation code; `0` where the bytes decode to no instruction.
    pub code: u16,
    /// The kind of each operand, by the decoder's numbers.
    pub op_kinds: Vec<u8>,
    /// The branch target, meaningful where an operand is a near 32-bit branch.
    pub near_branch32: u32,
    /// How the instruction passes control on, by the decoder's numbers.
    pub flow_control: u8,
    /// The status flags that the instruction reads.
    pub rflags_read: u32,
    /// The status flags that the instruction may change.
    pub rflags_modified: u32,
    /// Each register that the instruction touches, as the number of its full
    /// 32-bit register and the number of the kind of access.
    pub registers: Vec<(u32, u8)>,
}

/// The operation code of bytes that decode to no instruction.
pub const CODE_INVALID: u16 = 0;

/// The longest instruction, in bytes.
pub const MAX_INSTRUCTION_LENGTH: usize = 15;

/// The decoder's number for an operand that is a near 32-bit branch.
pub const OP_KIND_NEAR_BRANCH32: u8 = 2;

/// The decoder's number for control flow that jumps unconditionally.
pub const FLOW_UNCONDITIONAL_BRANCH: u8 = 1;

/// The decoder's number for control flow that jumps to a computed address.
pub const FLOW_INDIRECT_BRANCH: u8 = 2;

/// The decoder's number for control flow that returns.
pub const FLOW_RETURN: u8 = 4;

/// The decoder's number for control flow that raises an exception.
pub const FLOW_EXCEPTION: u8 = 9;

/// The decoder's number for a register that is read.
pub const ACCESS_READ: u8 = 1;

/// The decoder's number for a register that is read under a condition.
pub const ACCESS_COND_READ: u8 = 2;

/// The decoder's number for a register that is written.
pub const ACCESS_WRITE: u8 = 3;

/// The decoder's number for a register that is written under a condition.
pub const ACCESS_COND_WRITE: u8 = 4;

/// The decoder's number for a register that is read and written.
pub const ACCESS_READ_WRITE: u8 = 5;

/// The decoder's number for a register that is read, and written under a
/// condition.
pub const ACCESS_READ_COND_WRITE: u8 = 6;

/// What the decoder makes, in 32-bit mode and with no options, of the bytes
/// of `data` from `offset` on, taken as an instruction at address `ip`.
pub uninterp spec fn decoded_at(data: Seq<u8>, offset: int, ip: u32) -> Decoded;

/// The decoder's name for the operation code `code`, in bytes; `None` where
/// the decoder knows no such code.
pub uninterp spec fn opcode_name(code: u16) -> Option<Seq<u8>>;

/// Decodes one instruction with `iced_x86::Decoder::decode`, in 32-bit mode
/// and with no options, and reads the register usage of the result with
/// `iced_x86::InstructionInfoFactory::info_options`.
///
/// Trusted: the result is a function of the bytes from `offset` on and of
/// `ip`; an instruction takes at most fifteen bytes and no more than there
/// are, and at least one where there is one.
#[verifier::external_body]
pub(crate) fn decode_at(data: &[u8], offset: usize, ip: u32) -> (d: Decoded)
    requires
        offset <= data@.len(),
    ensures
        d == decoded_at(data@, offset as int, ip),
        d.len <= MAX_INSTRUCTION_LENGTH,
        d.len <= data@.len() - offset,
        offset < data@.len() ==> d.len >= 1,
{
    let i = iced_x86::Decoder::with_ip(32, &data[offset..], ip as u64, 0).decode();
    let mut factory = iced_x86::InstructionInfoFactory::new();
    let info = factory.info_options(&i, iced_x86::InstructionInfoOptions::NO_MEMORY_USAGE);
    Decoded {
        len: i.len(),
        code: i.code() as u16,
        op_kinds: i.op_kinds().map(|k| k as u8).collect(),
        near_branch32: i.near_branch32(),
        flow_control: i.flow_control() as u8,
        rflags_read: i.rflags_read(),
        rflags_modified: i.rflags_modified(),
        registers: info.used_registers().iter().map(|r| (r.register().full_register32() as u32, r.access() as u8)).collect(),
    }
}

/// Looks the operation code up with `iced_x86::Code::try_from` and formats it
/// as the decoder's `Debug` does.
///
/// Trusted: the result is a function of `code`.
#[verifier::external_body]
pub(crate) fn name_of_opcode(code: u16) -> (r: Option<Vec<u8>>)
    ensures
        match r {
            Some(name) => opcode_name(code) == Some(name@),
            None => opcode_name(code).is_none(),
        },
{
    match iced_x86::Code::try_from(code as usize) {
        Ok(c) => Some(format!("{:?}", c).into_bytes()),
        Err(_) => None,
    }
}

} // verus!
