use std::collections::HashMap;
use vstd::prelude::*;

use crate::frontend::e_packet::Packet;
use crate::frontend::encodings::Subfmt;

verus! {

/// The ELF section flag that marks a section of executable instructions.
pub const SHF_EXECINSTR: u64 = 0x4;

/// The architectures the decoder tells apart.
#[derive(Debug, Clone, Copy, PartialEq, Eq)]
pub enum Arch {
    Riscv32,
    Riscv64,
    Other,
}

/// The register width instructions are decoded for.
#[derive(Debug, Clone, Copy, PartialEq, Eq)]
pub enum Xlen {
    XLEN32,
    XLEN64,
}

/// The register width of a binary's architecture: 64 bits for RV64, 32 for
/// RV32, and `None` for any other architecture, which the decoder does not
/// support.
pub fn xlen_for(arch: Arch) -> (r: Option<Xlen>)
    ensures
        arch == Arch::Riscv64 ==> r == Some(Xlen::XLEN64),
        arch == Arch::Riscv32 ==> r == Some(Xlen::XLEN32),
        arch == Arch::Other ==> r is None,
{
    match arch {
        Arch::Riscv64 => Some(Xlen::XLEN64),
        Arch::Riscv32 => Some(Xlen::XLEN32),
        Arch::Other => None,
    }
}

/// Whether an ELF section with flags `sh_flags` holds instructions.
pub fn is_exec_section(sh_flags: u64) -> (r: bool)
    ensures
        r == (sh_flags & SHF_EXECINSTR != 0),
{
    sh_flags & SHF_EXECINSTR != 0
}

/// `2^64`, the modulus of program-counter arithmetic.
pub open spec fn pc_modulus() -> int {
    0x1_0000_0000_0000_0000
}

/// `pc` moved by `offset` bytes, wrapping around the 64-bit address space.
pub open spec fn pc_plus(pc: u64, offset: int) -> u64 {
    ((pc + offset) % pc_modulus()) as u64
}

/// Restores an address that a packet holds halved: shifts it left by one
/// bit, dropping the top bit.
pub fn refund_addr(addr: u64) -> (r: u64)
    ensures
        r as int == (2 * addr) % pc_modulus(),
{
    assert(addr << 1 == (2 * addr) % 0x1_0000_0000_0000_0000) by (bit_vector);
    addr << 1
}

/// What the walks over the instructions read of an instruction.
#[derive(Debug, Clone, Copy, PartialEq, Eq)]
pub struct InsnInfo {
    /// Its length in bytes.
    pub len: u8,
    pub is_branch: bool,
    pub is_direct_jump: bool,
    pub is_indirect_jump: bool,
    /// Its signed immediate operand, if it has one.
    pub imm: Option<i32>,
    /// Its encoding, for the consumers of the trace.
    pub raw: u32,
}

/// Why a walk cannot take its next step.
#[derive(Debug, Clone, Copy, PartialEq, Eq)]
pub enum WalkFault {
    /// A jump or a taken branch whose target is relative to an immediate
    /// that the instruction does not have.
    MissingImmediate,
    /// An indirect jump met while walking a branch map that carries no
    /// address.
    IndirectJumpWithoutAddress,
}

/// One step of a walk to the end of a basic block.
#[derive(Debug, Clone, Copy, PartialEq, Eq)]
pub enum UntilStep {
    /// Go on from `pc`; `emit` tells whether the instruction just passed is
    /// reported.
    Next { pc: u64, emit: bool },
    /// The walk ends at `pc`; `emit` tells whether the instruction just
    /// passed is reported.
    Stop { pc: u64, emit: bool },
    Fault { fault: WalkFault },
}

/// `pc` plus the sign-extended `imm`, as `pc.wrapping_add(imm as u64)`
/// computes it.
fn add_imm(pc: u64, imm: i32) -> (r: u64)
    ensures
        r == pc_plus(pc, imm as int),
{
    let off = imm as u64;
    assert(imm >= 0 ==> off == imm) by (bit_vector)
        requires
            off == imm as u64,
    ;
    assert(imm < 0 ==> off as int == imm + 0x1_0000_0000_0000_0000) by (bit_vector)
        requires
            off == imm as u64,
    ;
    pc.wrapping_add(off)
}

/// `pc` plus `off`, wrapping.
fn add_u64(pc: u64, off: u64) -> (r: u64)
    ensures
        r == pc_plus(pc, off as int),
{
    pc.wrapping_add(off)
}

/// One step of the walk to the end of a basic block from `pc`, where
/// `insn` is the instruction at `pc`, if there is one.
///
/// The walk follows direct jumps and straight-line code, reporting each
/// instruction it passes; it stops without reporting at a branch or where
/// no instruction is known, and after reporting an indirect jump, whose
/// target is `pc` moved by `end_pc_offset`.
pub open spec fn until_step(pc: u64, insn: Option<InsnInfo>, end_pc_offset: u64) -> UntilStep {
    match insn {
        None => UntilStep::Stop { pc, emit: false },
        Some(i) => if i.is_direct_jump {
            match i.imm {
                Some(imm) => UntilStep::Next { pc: pc_plus(pc, imm as int), emit: true },
                None => UntilStep::Fault { fault: WalkFault::MissingImmediate },
            }
        } else if i.is_branch {
            UntilStep::Stop { pc, emit: false }
        } else if i.is_indirect_jump {
            UntilStep::Stop { pc: pc_plus(pc, end_pc_offset as int), emit: true }
        } else {
            UntilStep::Next { pc: pc_plus(pc, i.len as int), emit: true }
        },
    }
}

/// Decides one step of the walk to the end of a basic block (see `until_step`).
pub fn step_bb_until(pc: u64, insn: Option<InsnInfo>, end_pc_offset: u64) -> (r: UntilStep)
    ensures
        r == until_step(pc, insn, end_pc_offset),
{
    if let Some(insn) = insn {
        if insn.is_direct_jump {
            // use immediate
            match insn.imm {
                Some(imm) => UntilStep::Next { pc: add_imm(pc, imm), emit: true },
                None => UntilStep::Fault { fault: WalkFault::MissingImmediate },
            }
        } else if insn.is_branch {
            UntilStep::Stop { pc, emit: false }
        } else if insn.is_indirect_jump {
            // use the offset and break
            UntilStep::Stop { pc: add_u64(pc, end_pc_offset), emit: true }
        } else {
            UntilStep::Next { pc: add_u64(pc, insn.len as u64), emit: true }
        }
    } else {
        UntilStep::Stop { pc, emit: false }
    }
}

/// One step of a walk that follows a branch map.
#[derive(Debug, Clone, Copy, PartialEq, Eq)]
pub enum BranchMapStep {
    /// Go on from `pc` with `branches` branch decisions left; `emit` tells
    /// whether the instruction just passed is reported.
    Next { pc: u64, branches: u8, emit: bool },
    /// The walk ends at `pc`; `emit` tells whether the instruction just
    /// passed is reported.
    Stop { pc: u64, emit: bool },
    Fault { fault: WalkFault },
}

/// Bit `i` of a branch map: whether the branch it records was taken.
pub open spec fn map_bit(branch_map: u32, i: u32) -> bool {
    (branch_map >> i) & 1 == 1
}

/// One step of the walk from `pc` that follows `branch_map`, with
/// `branches` branch decisions of it left, where `insn` is the instruction
/// at `pc`, if there is one.
///
/// Decisions are used from bit `branches - 1` down to bit 0. The walk ends
/// when no decision is left and no address was given, or where no
/// instruction is known, or at a branch when no decision is left, or after
/// an indirect jump, whose target is `pc` moved by `end_pc_offset`.
pub open spec fn branch_map_step(
    pc: u64,
    branches: u8,
    insn: Option<InsnInfo>,
    end_pc_offset: u64,
    branch_map: u32,
    with_address: bool,
) -> BranchMapStep {
    if branches == 0 && !with_address {
        BranchMapStep::Stop { pc, emit: false }
    } else {
        match insn {
            None => BranchMapStep::Stop { pc, emit: false },
            Some(i) => if i.is_direct_jump {
                match i.imm {
                    Some(imm) => BranchMapStep::Next { pc: pc_plus(pc, imm as int), branches, emit: true },
                    None => BranchMapStep::Fault { fault: WalkFault::MissingImmediate },
                }
            } else if i.is_branch {
                if branches > 0 {
                    if map_bit(branch_map, (branches - 1) as u32) {
                        match i.imm {
                            Some(imm) => BranchMapStep::Next {
                                pc: pc_plus(pc, imm as int),
                                branches: (branches - 1) as u8,
                                emit: true,
                            },
                            None => BranchMapStep::Fault { fault: WalkFault::MissingImmediate },
                        }
                    } else {
                        BranchMapStep::Next {
                            pc: pc_plus(pc, i.len as int),
                            branches: (branches - 1) as u8,
                            emit: true,
                        }
                    }
                } else {
                    BranchMapStep::Stop { pc, emit: false }
                }
            } else if i.is_indirect_jump {
                if with_address {
                    BranchMapStep::Stop { pc: pc_plus(pc, end_pc_offset as int), emit: true }
                } else {
                    BranchMapStep::Fault { fault: WalkFault::IndirectJumpWithoutAddress }
                }
            } else {
                BranchMapStep::Next { pc: pc_plus(pc, i.len as int), branches, emit: true }
            },
        }
    }
}

/// Decides one step of the walk that follows a branch map (see
/// `branch_map_step`); `local_branches` is the number of decisions left,
/// at most 32 where a branch is met, for its decision is a bit of the
/// 32-bit map.
pub fn step_bb_branch_map(
    pc: u64,
    local_branches: u8,
    insn: Option<InsnInfo>,
    end_pc_offset: u64,
    branch_map: u32,
    with_address: bool,
) -> (r: BranchMapStep)
    requires
        insn matches Some(i) && i.is_branch && !i.is_direct_jump ==> local_branches <= 32,
    ensures
        r == branch_map_step(pc, local_branches, insn, end_pc_offset, branch_map, with_address),
{
    if local_branches == 0 && !with_address {
        return BranchMapStep::Stop { pc, emit: false };
    }
    if let Some(insn) = insn {
        if insn.is_direct_jump {
            match insn.imm {
                Some(imm) => BranchMapStep::Next { pc: add_imm(pc, imm), branches: local_branches, emit: true },
                None => BranchMapStep::Fault { fault: WalkFault::MissingImmediate },
            }
        } else if insn.is_branch {
            if local_branches > 0 {
                let shift: u32 = (local_branches - 1) as u32;
                let taken = (branch_map & ((1 as u32) << shift)) > 0;
                assert(taken == map_bit(branch_map, shift)) by (bit_vector)
                    requires
                        shift < 32,
                        taken == ((branch_map & (1u32 << shift)) > 0),
                ;
                if taken {
                    match insn.imm {
                        Some(imm) => BranchMapStep::Next {
                            pc: add_imm(pc, imm),
                            branches: local_branches - 1,
                            emit: true,
                        },
                        None => BranchMapStep::Fault { fault: WalkFault::MissingImmediate },
                    }
                } else {
                    BranchMapStep::Next {
                        pc: add_u64(pc, insn.len as u64),
                        branches: local_branches - 1,
                        emit: true,
                    }
                }
            } else {
                BranchMapStep::Stop { pc, emit: false }
            }
        } else if insn.is_indirect_jump {
            if with_address {
                BranchMapStep::Stop { pc: add_u64(pc, end_pc_offset), emit: true }
            } else {
                BranchMapStep::Fault { fault: WalkFault::IndirectJumpWithoutAddress }
            }
        } else {
            BranchMapStep::Next { pc: add_u64(pc, insn.len as u64), branches: local_branches, emit: true }
        }
    } else {
        BranchMapStep::Stop { pc, emit: false }
    }
}

/// Off branches, the walk that follows a branch map with an address takes
/// the same steps as the walk to the end of a basic block: the same next pc,
/// the same reports, the same stops, with its decisions left untouched.
pub proof fn law_walks_agree_off_branches(
    pc: u64,
    branches: u8,
    insn: Option<InsnInfo>,
    end_pc_offset: u64,
    branch_map: u32,
)
    requires
        insn matches Some(i) ==> !i.is_branch || i.is_direct_jump,
    ensures
        match (until_step(pc, insn, end_pc_offset), branch_map_step(pc, branches, insn, end_pc_offset, branch_map, true)) {
            (UntilStep::Next { pc: p1, emit: e1 }, BranchMapStep::Next { pc: p2, branches: n, emit: e2 }) =>
                p1 == p2 && e1 == e2 && n == branches,
            (UntilStep::Stop { pc: p1, emit: e1 }, BranchMapStep::Stop { pc: p2, emit: e2 }) =>
                p1 == p2 && e1 == e2,
            (UntilStep::Fault { fault: f1 }, BranchMapStep::Fault { fault: f2 }) => f1 == f2,
            _ => false,
        },
{
}

/// A step of the branch-map walk uses one decision when it passes a branch
/// and none otherwise, and the decision it uses is the highest one left: a
/// taken branch moves to its target, one not taken to the next instruction.
pub proof fn law_branch_decisions_used_in_order(
    pc: u64,
    branches: u8,
    i: InsnInfo,
    end_pc_offset: u64,
    branch_map: u32,
    with_address: bool,
)
    ensures
        branch_map_step(pc, branches, Some(i), end_pc_offset, branch_map, with_address) matches BranchMapStep::Next { pc: next, branches: left, .. } ==> {
            &&& (i.is_branch && !i.is_direct_jump) ==> {
                &&& branches > 0
                &&& left == branches - 1
                &&& map_bit(branch_map, (branches - 1) as u32) ==> (i.imm matches Some(imm) && next == pc_plus(pc, imm as int))
                &&& !map_bit(branch_map, (branches - 1) as u32) ==> next == pc_plus(pc, i.len as int)
            }
            &&& !(i.is_branch && !i.is_direct_jump) ==> left == branches
        },
{
}

/// A direct jump is always followed to its target, whatever its length
/// (2-byte `c.j`/`c.jal` included): a step of either walk at a direct jump
/// with immediate `imm` reports the jump and goes on at `pc + imm`, wrapping
/// around the 64-bit address space. The branch-map walk does so keeping its
/// decisions, with or without an address, unless it has already stopped for
/// want of decisions and address.
pub proof fn law_direct_jump_followed(
    pc: u64,
    branches: u8,
    i: InsnInfo,
    imm: i32,
    end_pc_offset: u64,
    branch_map: u32,
    with_address: bool,
)
    requires
        i.is_direct_jump,
        i.imm == Some(imm),
    ensures
        until_step(pc, Some(i), end_pc_offset) == (UntilStep::Next {
            pc: ((pc as int + imm as int) % 0x1_0000_0000_0000_0000) as u64,
            emit: true,
        }),
        branches > 0 || with_address ==> branch_map_step(pc, branches, Some(i), end_pc_offset, branch_map, with_address)
            == (BranchMapStep::Next {
            pc: ((pc as int + imm as int) % 0x1_0000_0000_0000_0000) as u64,
            branches,
            emit: true,
        }),
{
}

/// The other instructions a step of the walk to the end of a basic block
/// meets: straight-line code is reported and passed to the instruction
/// `len` bytes on; a conditional branch, or a pc with no known instruction,
/// stops the walk there without a report; an indirect jump is reported and
/// ends the walk `end_pc_offset` bytes on (all wrapping).
pub proof fn law_until_step_cases(pc: u64, insn: Option<InsnInfo>, end_pc_offset: u64)
    ensures
        insn is None ==> until_step(pc, insn, end_pc_offset) == (UntilStep::Stop { pc, emit: false }),
        insn matches Some(i) && !i.is_direct_jump && !i.is_branch && !i.is_indirect_jump
            ==> until_step(pc, insn, end_pc_offset) == (UntilStep::Next {
            pc: ((pc as int + insn.unwrap().len as int) % 0x1_0000_0000_0000_0000) as u64,
            emit: true,
        }),
        insn matches Some(i) && !i.is_direct_jump && i.is_branch ==> until_step(pc, insn, end_pc_offset)
            == (UntilStep::Stop { pc, emit: false }),
        insn matches Some(i) && !i.is_direct_jump && !i.is_branch && i.is_indirect_jump
            ==> until_step(pc, insn, end_pc_offset) == (UntilStep::Stop {
            pc: ((pc as int + end_pc_offset as int) % 0x1_0000_0000_0000_0000) as u64,
            emit: true,
        }),
{
}

/// The other instructions a step of the branch-map walk meets, while it has
/// decisions left or an address: a conditional branch with a decision left
/// is reported and uses the highest one, bit `branches - 1` of the map,
/// going to its target when the bit is set and `len` bytes on when it is
/// clear; with no decision left it stops there unreported. Straight-line
/// code is reported and passed; an indirect jump is reported and ends the
/// walk `end_pc_offset` bytes on when the packet has an address, and is a
/// fault when it has none. Without decisions and address the walk stops
/// before looking.
pub proof fn law_branch_map_step_cases(
    pc: u64,
    branches: u8,
    insn: Option<InsnInfo>,
    end_pc_offset: u64,
    branch_map: u32,
    with_address: bool,
)
    ensures
        branches == 0 && !with_address ==> branch_map_step(pc, branches, insn, end_pc_offset, branch_map, with_address)
            == (BranchMapStep::Stop { pc, emit: false }),
        (branches > 0 || with_address) && insn is None ==> branch_map_step(pc, branches, insn, end_pc_offset, branch_map, with_address)
            == (BranchMapStep::Stop { pc, emit: false }),
        (branches > 0 || with_address) && (insn matches Some(i) && !i.is_direct_jump && !i.is_branch && !i.is_indirect_jump)
            ==> branch_map_step(pc, branches, insn, end_pc_offset, branch_map, with_address) == (BranchMapStep::Next {
            pc: ((pc as int + insn.unwrap().len as int) % 0x1_0000_0000_0000_0000) as u64,
            branches,
            emit: true,
        }),
        branches > 0 && (insn matches Some(i) && !i.is_direct_jump && i.is_branch)
            && (branch_map >> ((branches - 1) as u32)) & 1 == 0
            ==> branch_map_step(pc, branches, insn, end_pc_offset, branch_map, with_address) == (BranchMapStep::Next {
            pc: ((pc as int + insn.unwrap().len as int) % 0x1_0000_0000_0000_0000) as u64,
            branches: (branches - 1) as u8,
            emit: true,
        }),
        branches > 0 && (insn matches Some(i) && !i.is_direct_jump && i.is_branch && i.imm is Some)
            && (branch_map >> ((branches - 1) as u32)) & 1 == 1
            ==> branch_map_step(pc, branches, insn, end_pc_offset, branch_map, with_address) == (BranchMapStep::Next {
            pc: ((pc as int + insn.unwrap().imm.unwrap() as int) % 0x1_0000_0000_0000_0000) as u64,
            branches: (branches - 1) as u8,
            emit: true,
        }),
        with_address && branches == 0 && (insn matches Some(i) && !i.is_direct_jump && i.is_branch)
            ==> branch_map_step(pc, branches, insn, end_pc_offset, branch_map, with_address)
            == (BranchMapStep::Stop { pc, emit: false }),
        (branches > 0 || with_address) && (insn matches Some(i) && !i.is_direct_jump && !i.is_branch && i.is_indirect_jump)
            ==> branch_map_step(pc, branches, insn, end_pc_offset, branch_map, with_address) == if with_address {
            BranchMapStep::Stop {
                pc: ((pc as int + end_pc_offset as int) % 0x1_0000_0000_0000_0000) as u64,
                emit: true,
            }
        } else {
            BranchMapStep::Fault { fault: WalkFault::IndirectJumpWithoutAddress }
        },
{
}

/// Off conditional branches and indirect jumps, the walk that follows a
/// branch map without an address, while it has decisions left, takes the
/// same steps as the walk to the end of a basic block: the same next pc,
/// the same reports, the same stops, with its decisions left untouched.
pub proof fn law_walks_agree_without_address(
    pc: u64,
    branches: u8,
    insn: Option<InsnInfo>,
    end_pc_offset: u64,
    branch_map: u32,
)
    requires
        branches > 0,
        insn matches Some(i) ==> i.is_direct_jump || (!i.is_branch && !i.is_indirect_jump),
    ensures
        match (until_step(pc, insn, end_pc_offset), branch_map_step(pc, branches, insn, end_pc_offset, branch_map, false)) {
            (UntilStep::Next { pc: p1, emit: e1 }, BranchMapStep::Next { pc: p2, branches: n, emit: e2 }) =>
                p1 == p2 && e1 == e2 && n == branches,
            (UntilStep::Stop { pc: p1, emit: e1 }, BranchMapStep::Stop { pc: p2, emit: e2 }) =>
                p1 == p2 && e1 == e2,
            (UntilStep::Fault { fault: f1 }, BranchMapStep::Fault { fault: f2 }) => f1 == f2,
            _ => false,
        },
{
}

/// How a walk over the instructions ends.
#[derive(Debug, Clone, Copy, PartialEq, Eq)]
pub enum WalkEnd {
    /// At `pc`, with `branches` decisions left.
    Stopped { pc: u64, branches: u8 },
    Faulted { fault: WalkFault },
    /// Not within the steps allowed; it goes on from `pc`, with `branches`
    /// decisions left.
    Unfinished { pc: u64, branches: u8 },
}

/// The instruction at `pc`, if `insns` has one.
pub open spec fn insn_at(insns: Map<u64, InsnInfo>, pc: u64) -> Option<InsnInfo> {
    if insns.dom().contains(pc) {
        Some(insns[pc])
    } else {
        None
    }
}

/// The end of the walk to the end of a basic block from `pc` over the
/// instructions `insns`, taking at most `fuel` steps (see `until_step`).
#[verifier::opaque]
pub open spec fn until_walk(insns: Map<u64, InsnInfo>, pc: u64, end_pc_offset: u64, fuel: nat) -> WalkEnd
    decreases fuel,
{
    if fuel == 0 {
        WalkEnd::Unfinished { pc, branches: 0 }
    } else {
        match until_step(pc, insn_at(insns, pc), end_pc_offset) {
            UntilStep::Next { pc: next, .. } => until_walk(insns, next, end_pc_offset, (fuel - 1) as nat),
            UntilStep::Stop { pc: next, .. } => WalkEnd::Stopped { pc: next, branches: 0 },
            UntilStep::Fault { fault } => WalkEnd::Faulted { fault },
        }
    }
}

/// The end of the walk from `pc` over the instructions `insns` that follows
/// `branch_map` with `branches` decisions left, taking at most `fuel` steps
/// (see `branch_map_step`).
#[verifier::opaque]
pub open spec fn branch_map_walk(
    insns: Map<u64, InsnInfo>,
    pc: u64,
    branches: u8,
    end_pc_offset: u64,
    branch_map: u32,
    with_address: bool,
    fuel: nat,
) -> WalkEnd
    decreases fuel,
{
    if fuel == 0 {
        WalkEnd::Unfinished { pc, branches }
    } else {
        match branch_map_step(pc, branches, insn_at(insns, pc), end_pc_offset, branch_map, with_address) {
            BranchMapStep::Next { pc: next, branches: left, .. } => branch_map_walk(
                insns,
                next,
                left,
                end_pc_offset,
                branch_map,
                with_address,
                (fuel - 1) as nat,
            ),
            BranchMapStep::Stop { pc: next, .. } => WalkEnd::Stopped { pc: next, branches },
            BranchMapStep::Fault { fault } => WalkEnd::Faulted { fault },
        }
    }
}

/// What one step reports: the instruction at `pc` when the step reports it.
pub open spec fn step_report(pc: u64, insn: Option<InsnInfo>, emit: bool) -> Seq<(u64, InsnInfo)> {
    if emit && insn is Some {
        seq![(pc, insn.unwrap())]
    } else {
        Seq::empty()
    }
}

/// What a step that fails reports: a jump or taken branch whose immediate
/// is missing is reported before the failure; an indirect jump without an
/// address is not.
pub open spec fn fault_report(pc: u64, insn: Option<InsnInfo>, fault: WalkFault) -> Seq<(u64, InsnInfo)> {
    step_report(pc, insn, fault == WalkFault::MissingImmediate)
}

/// The instructions, with their pcs, that the walk to the end of a basic
/// block reports, in order, taking at most `fuel` steps.
#[verifier::opaque]
pub open spec fn until_reports(insns: Map<u64, InsnInfo>, pc: u64, end_pc_offset: u64, fuel: nat) -> Seq<(u64, InsnInfo)>
    decreases fuel,
{
    if fuel == 0 {
        Seq::empty()
    } else {
        let insn = insn_at(insns, pc);
        match until_step(pc, insn, end_pc_offset) {
            UntilStep::Next { pc: next, emit } => step_report(pc, insn, emit) + until_reports(
                insns,
                next,
                end_pc_offset,
                (fuel - 1) as nat,
            ),
            UntilStep::Stop { emit, .. } => step_report(pc, insn, emit),
            UntilStep::Fault { fault } => fault_report(pc, insn, fault),
        }
    }
}

/// The instructions, with their pcs, that the walk following a branch map
/// reports, in order, taking at most `fuel` steps.
#[verifier::opaque]
pub open spec fn branch_map_reports(
    insns: Map<u64, InsnInfo>,
    pc: u64,
    branches: u8,
    end_pc_offset: u64,
    branch_map: u32,
    with_address: bool,
    fuel: nat,
) -> Seq<(u64, InsnInfo)>
    decreases fuel,
{
    if fuel == 0 {
        Seq::empty()
    } else {
        let insn = insn_at(insns, pc);
        match branch_map_step(pc, branches, insn, end_pc_offset, branch_map, with_address) {
            BranchMapStep::Next { pc: next, branches: left, emit } => step_report(pc, insn, emit)
                + branch_map_reports(
                insns,
                next,
                left,
                end_pc_offset,
                branch_map,
                with_address,
                (fuel - 1) as nat,
            ),
            BranchMapStep::Stop { emit, .. } => step_report(pc, insn, emit),
            BranchMapStep::Fault { fault } => fault_report(pc, insn, fault),
        }
    }
}

/// One step of the walk to the end of a basic block, unfolded.
proof fn lemma_until_unfold(insns: Map<u64, InsnInfo>, pc: u64, end_pc_offset: u64, fuel: nat)
    requires
        fuel > 0,
    ensures
        ({
            let insn = insn_at(insns, pc);
            match until_step(pc, insn, end_pc_offset) {
                UntilStep::Next { pc: next, emit } => {
                    &&& until_walk(insns, pc, end_pc_offset, fuel) == until_walk(insns, next, end_pc_offset, (fuel - 1) as nat)
                    &&& until_reports(insns, pc, end_pc_offset, fuel) == step_report(pc, insn, emit)
                        + until_reports(insns, next, end_pc_offset, (fuel - 1) as nat)
                },
                UntilStep::Stop { pc: next, emit } => {
                    &&& until_walk(insns, pc, end_pc_offset, fuel) == (WalkEnd::Stopped { pc: next, branches: 0 })
                    &&& until_reports(insns, pc, end_pc_offset, fuel) == step_report(pc, insn, emit)
                },
                UntilStep::Fault { fault } => {
                    &&& until_walk(insns, pc, end_pc_offset, fuel) == (WalkEnd::Faulted { fault })
                    &&& until_reports(insns, pc, end_pc_offset, fuel) == fault_report(pc, insn, fault)
                },
            }
        }),
{
    reveal(until_walk);
    reveal(until_reports);
    reveal(branch_map_walk);
    reveal(branch_map_reports);
}

/// One step of the walk following a branch map, unfolded.
proof fn lemma_branch_map_unfold(
    insns: Map<u64, InsnInfo>,
    pc: u64,
    branches: u8,
    end_pc_offset: u64,
    branch_map: u32,
    with_address: bool,
    fuel: nat,
)
    requires
        fuel > 0,
    ensures
        ({
            let insn = insn_at(insns, pc);
            match branch_map_step(pc, branches, insn, end_pc_offset, branch_map, with_address) {
                BranchMapStep::Next { pc: next, branches: left, emit } => {
                    &&& left <= branches
                    &&& branch_map_walk(insns, pc, branches, end_pc_offset, branch_map, with_address, fuel)
                        == branch_map_walk(insns, next, left, end_pc_offset, branch_map, with_address, (fuel - 1) as nat)
                    &&& branch_map_reports(insns, pc, branches, end_pc_offset, branch_map, with_address, fuel)
                        == step_report(pc, insn, emit) + branch_map_reports(
                        insns,
                        next,
                        left,
                        end_pc_offset,
                        branch_map,
                        with_address,
                        (fuel - 1) as nat,
                    )
                },
                BranchMapStep::Stop { pc: next, emit } => {
                    &&& branch_map_walk(insns, pc, branches, end_pc_offset, branch_map, with_address, fuel)
                        == (WalkEnd::Stopped { pc: next, branches })
                    &&& branch_map_reports(insns, pc, branches, end_pc_offset, branch_map, with_address, fuel)
                        == step_report(pc, insn, emit)
                },
                BranchMapStep::Fault { fault } => {
                    &&& branch_map_walk(insns, pc, branches, end_pc_offset, branch_map, with_address, fuel)
                        == (WalkEnd::Faulted { fault })
                    &&& branch_map_reports(insns, pc, branches, end_pc_offset, branch_map, with_address, fuel)
                        == fault_report(pc, insn, fault)
                },
            }
        }),
{
    reveal(until_walk);
    reveal(until_reports);
    reveal(branch_map_walk);
    reveal(branch_map_reports);
}

/// A walk allowed no step goes nowhere and reports nothing.
proof fn lemma_walks_without_fuel(
    insns: Map<u64, InsnInfo>,
    pc: u64,
    branches: u8,
    end_pc_offset: u64,
    branch_map: u32,
    with_address: bool,
)
    ensures
        until_walk(insns, pc, end_pc_offset, 0) == (WalkEnd::Unfinished { pc, branches: 0 }),
        until_reports(insns, pc, end_pc_offset, 0) == Seq::<(u64, InsnInfo)>::empty(),
        branch_map_walk(insns, pc, branches, end_pc_offset, branch_map, with_address, 0)
            == (WalkEnd::Unfinished { pc, branches }),
        branch_map_reports(insns, pc, branches, end_pc_offset, branch_map, with_address, 0)
            == Seq::<(u64, InsnInfo)>::empty(),
{
    reveal(until_walk);
    reveal(until_reports);
    reveal(branch_map_walk);
    reveal(branch_map_reports);
}

/// The instruction at `pc` in `insns`, if any.
fn lookup(insns: &HashMap<u64, InsnInfo>, pc: u64) -> (r: Option<InsnInfo>)
    ensures
        r == insn_at(insns@, pc),
{
    broadcast use vstd::std_specs::hash::group_hash_axioms;

    match insns.get(&pc) {
        Some(i) => Some(*i),
        None => None,
    }
}

/// Walks to the end of a basic block from `pc` over `insns`, taking at most
/// `fuel` steps, and returns how the walk ends with the instructions it
/// reports, in order. An unfinished walk goes on from the pc it returns.
pub fn walk_until(insns: &HashMap<u64, InsnInfo>, pc: u64, end_pc_offset: u64, fuel: u64) -> (r: (
    WalkEnd,
    Vec<(u64, InsnInfo)>,
))
    ensures
        r.0 == until_walk(insns@, pc, end_pc_offset, fuel as nat),
        r.1@ == until_reports(insns@, pc, end_pc_offset, fuel as nat),
{
    let mut reports: Vec<(u64, InsnInfo)> = Vec::new();
    let mut cur = pc;
    let mut left = fuel;
    loop
        invariant
            until_walk(insns@, pc, end_pc_offset, fuel as nat) == until_walk(insns@, cur, end_pc_offset, left as nat),
            until_reports(insns@, pc, end_pc_offset, fuel as nat) == reports@ + until_reports(insns@, cur, end_pc_offset, left as nat),
        decreases left,
    {
        if left == 0 {
            proof {
                lemma_walks_without_fuel(insns@, cur, 0, end_pc_offset, 0, false);
            }
            assert(reports@ + Seq::<(u64, InsnInfo)>::empty() =~= reports@);
            return (WalkEnd::Unfinished { pc: cur, branches: 0 }, reports);
        }
        let insn = lookup(insns, cur);
        let ghost before = reports@;
        proof {
            lemma_until_unfold(insns@, cur, end_pc_offset, left as nat);
        }
        match step_bb_until(cur, insn, end_pc_offset) {
            UntilStep::Next { pc: next, emit } => {
                if let (true, Some(i)) = (emit, insn) {
                    reports.push((cur, i));
                }
                assert(reports@ == before + step_report(cur, insn, emit));
                assert(before + (step_report(cur, insn, emit) + until_reports(insns@, next, end_pc_offset, (left - 1) as nat))
                    =~= reports@ + until_reports(insns@, next, end_pc_offset, (left - 1) as nat));
                cur = next;
                left = left - 1;
            },
            UntilStep::Stop { pc: next, emit } => {
                if let (true, Some(i)) = (emit, insn) {
                    reports.push((cur, i));
                }
                assert(reports@ =~= before + step_report(cur, insn, emit));
                return (WalkEnd::Stopped { pc: next, branches: 0 }, reports);
            },
            UntilStep::Fault { fault } => {
                if let (WalkFault::MissingImmediate, Some(i)) = (fault, insn) {
                    reports.push((cur, i));
                }
                assert(reports@ =~= before + fault_report(cur, insn, fault));
                return (WalkEnd::Faulted { fault }, reports);
            },
        }
    }
}

/// Walks from `pc` over `insns` following `branch_map` with `branches`
/// decisions left, taking at most `fuel` steps, and returns how the walk
/// ends with the instructions it reports, in order. An unfinished walk goes
/// on from the pc and with the decisions it returns.
pub fn walk_branch_map(
    insns: &HashMap<u64, InsnInfo>,
    pc: u64,
    branches: u8,
    end_pc_offset: u64,
    branch_map: u32,
    with_address: bool,
    fuel: u64,
) -> (r: (WalkEnd, Vec<(u64, InsnInfo)>))
    requires
        branches <= 32,
    ensures
        r.0 == branch_map_walk(insns@, pc, branches, end_pc_offset, branch_map, with_address, fuel as nat),
        r.1@ == branch_map_reports(insns@, pc, branches, end_pc_offset, branch_map, with_address, fuel as nat),
{
    let mut reports: Vec<(u64, InsnInfo)> = Vec::new();
    let mut cur = pc;
    let mut local_branches = branches;
    let mut left = fuel;
    loop
        invariant
            local_branches <= branches <= 32,
            branch_map_walk(insns@, pc, branches, end_pc_offset, branch_map, with_address, fuel as nat)
                == branch_map_walk(insns@, cur, local_branches, end_pc_offset, branch_map, with_address, left as nat),
            branch_map_reports(insns@, pc, branches, end_pc_offset, branch_map, with_address, fuel as nat)
                == reports@ + branch_map_reports(insns@, cur, local_branches, end_pc_offset, branch_map, with_address, left as nat),
        decreases left,
    {
        if left == 0 {
            proof {
                lemma_walks_without_fuel(insns@, cur, local_branches, end_pc_offset, branch_map, with_address);
            }
            assert(reports@ + Seq::<(u64, InsnInfo)>::empty() =~= reports@);
            return (WalkEnd::Unfinished { pc: cur, branches: local_branches }, reports);
        }
        let insn = lookup(insns, cur);
        let ghost before = reports@;
        proof {
            lemma_branch_map_unfold(insns@, cur, local_branches, end_pc_offset, branch_map, with_address, left as nat);
        }
        match step_bb_branch_map(cur, local_branches, insn, end_pc_offset, branch_map, with_address) {
            BranchMapStep::Next { pc: next, branches: n, emit } => {
                if let (true, Some(i)) = (emit, insn) {
                    reports.push((cur, i));
                }
                assert(reports@ == before + step_report(cur, insn, emit));
                assert(before + (step_report(cur, insn, emit) + branch_map_reports(insns@, next, n, end_pc_offset, branch_map, with_address, (left - 1) as nat))
                    =~= reports@ + branch_map_reports(insns@, next, n, end_pc_offset, branch_map, with_address, (left - 1) as nat));
                cur = next;
                local_branches = n;
                left = left - 1;
            },
            BranchMapStep::Stop { pc: next, emit } => {
                if let (true, Some(i)) = (emit, insn) {
                    reports.push((cur, i));
                }
                assert(reports@ =~= before + step_report(cur, insn, emit));
                return (WalkEnd::Stopped { pc: next, branches: local_branches }, reports);
            },
            BranchMapStep::Fault { fault } => {
                if let (WalkFault::MissingImmediate, Some(i)) = (fault, insn) {
                    reports.push((cur, i));
                }
                assert(reports@ =~= before + fault_report(cur, insn, fault));
                return (WalkEnd::Faulted { fault }, reports);
            },
        }
    }
}

/// A walk that follows a branch map never gains decisions, and without an
/// address it ends early, with decisions left, only where it runs out of
/// known instructions.
pub proof fn law_branch_map_walk_ends(
    insns: Map<u64, InsnInfo>,
    pc: u64,
    branches: u8,
    end_pc_offset: u64,
    branch_map: u32,
    with_address: bool,
    fuel: nat,
)
    ensures
        branch_map_walk(insns, pc, branches, end_pc_offset, branch_map, with_address, fuel) matches WalkEnd::Stopped { pc: end, branches: left } ==> {
            &&& left <= branches
            &&& (with_address || left == 0 || !insns.dom().contains(end))
        },
    decreases fuel,
{
    reveal(until_walk);
    reveal(until_reports);
    reveal(branch_map_walk);
    reveal(branch_map_reports);
    if fuel > 0 {
        match branch_map_step(pc, branches, insn_at(insns, pc), end_pc_offset, branch_map, with_address) {
            BranchMapStep::Next { pc: next, branches: left, .. } => {
                law_branch_map_walk_ends(insns, next, left, end_pc_offset, branch_map, with_address, (fuel - 1) as nat);
            },
            _ => {},
        }
    }
}

/// Over code without conditional branches, the walk that follows a branch
/// map with an address ends where the walk to the end of a basic block
/// ends, in the same way, with its decisions untouched.
pub proof fn law_walks_agree_without_branches(
    insns: Map<u64, InsnInfo>,
    pc: u64,
    branches: u8,
    end_pc_offset: u64,
    branch_map: u32,
    fuel: nat,
)
    requires
        forall|a: u64| #[trigger] insns.dom().contains(a) ==> !insns[a].is_branch || insns[a].is_direct_jump,
    ensures
        match (until_walk(insns, pc, end_pc_offset, fuel), branch_map_walk(insns, pc, branches, end_pc_offset, branch_map, true, fuel)) {
            (WalkEnd::Stopped { pc: p1, .. }, WalkEnd::Stopped { pc: p2, branches: left }) => p1 == p2 && left == branches,
            (WalkEnd::Faulted { fault: f1 }, WalkEnd::Faulted { fault: f2 }) => f1 == f2,
            (WalkEnd::Unfinished { pc: p1, .. }, WalkEnd::Unfinished { pc: p2, branches: left }) => p1 == p2 && left == branches,
            _ => false,
        },
    decreases fuel,
{
    reveal(until_walk);
    reveal(until_reports);
    reveal(branch_map_walk);
    reveal(branch_map_reports);
    if fuel > 0 {
        let insn = insn_at(insns, pc);
        law_walks_agree_off_branches(pc, branches, insn, end_pc_offset, branch_map);
        match until_step(pc, insn, end_pc_offset) {
            UntilStep::Next { pc: next, .. } => {
                law_walks_agree_without_branches(insns, next, branches, end_pc_offset, branch_map, (fuel - 1) as nat);
            },
            _ => {},
        }
    }
}

/// Whether an instruction is a conditional branch, which uses a decision of
/// a branch map.
pub open spec fn uses_decision(i: InsnInfo) -> bool {
    i.is_branch && !i.is_direct_jump
}

/// How many of the reported instructions `r` are conditional branches.
pub open spec fn decisions_in(r: Seq<(u64, InsnInfo)>) -> nat
    decreases r.len(),
{
    if r.len() == 0 {
        0
    } else {
        (if uses_decision(r[0].1) { 1nat } else { 0nat }) + decisions_in(r.drop_first())
    }
}

/// The pcs of the reported instructions `r`, in order.
pub open spec fn report_pcs(r: Seq<(u64, InsnInfo)>) -> Seq<u64> {
    r.map_values(|e: (u64, InsnInfo)| e.0)
}

/// Counting the decisions of a step's report followed by more reports.
proof fn lemma_decisions_after_step(step: Seq<(u64, InsnInfo)>, rest: Seq<(u64, InsnInfo)>)
    requires
        step.len() <= 1,
    ensures
        decisions_in(step + rest) == decisions_in(step) + decisions_in(rest),
{
    if step.len() == 1 {
        assert((step + rest).drop_first() =~= rest);
        assert(step.drop_first() =~= Seq::<(u64, InsnInfo)>::empty());
        assert(decisions_in(step.drop_first()) == 0);
    } else {
        assert(step + rest =~= rest);
    }
}

/// A step reports a conditional branch exactly when it reports an
/// instruction that is one.
proof fn lemma_step_decisions(pc: u64, insn: Option<InsnInfo>, emit: bool)
    ensures
        decisions_in(step_report(pc, insn, emit)) == (if emit && insn is Some && uses_decision(insn.unwrap()) {
            1nat
        } else {
            0nat
        }),
{
    let head = step_report(pc, insn, emit);
    if head.len() == 1 {
        assert(head.drop_first() =~= Seq::<(u64, InsnInfo)>::empty());
        assert(decisions_in(head.drop_first()) == 0);
    }
}

/// Reported instructions, each at a distinct pc of `insns`, are no more
/// than the instructions `insns` holds.
proof fn lemma_distinct_reports_bound(insns: Map<u64, InsnInfo>, r: Seq<(u64, InsnInfo)>)
    requires
        insns.dom().finite(),
        forall|k: int| 0 <= k < r.len() ==> insns.dom().contains(#[trigger] r[k].0),
        report_pcs(r).no_duplicates(),
    ensures
        r.len() <= insns.dom().len(),
{
    let pcs = report_pcs(r);
    pcs.unique_seq_to_set();
    assert forall|a: u64| pcs.to_set().contains(a) implies insns.dom().contains(a) by {
        let k = choose|k: int| 0 <= k < pcs.len() && pcs[k] == a;
        assert(r[k].0 == a);
    }
    vstd::set_lib::lemma_len_subset(pcs.to_set(), insns.dom());
}

/// Each instruction the walk to the end of a basic block reports is the
/// one `insns` holds at the pc it is reported with, and a walk that does
/// not finish reports one instruction for each step it takes.
proof fn lemma_until_reports_known(insns: Map<u64, InsnInfo>, pc: u64, end_pc_offset: u64, fuel: nat)
    ensures
        forall|k: int| 0 <= k < until_reports(insns, pc, end_pc_offset, fuel).len() ==> {
            let e = #[trigger] until_reports(insns, pc, end_pc_offset, fuel)[k];
            insns.dom().contains(e.0) && insns[e.0] == e.1
        },
        until_walk(insns, pc, end_pc_offset, fuel) is Unfinished ==> until_reports(insns, pc, end_pc_offset, fuel).len() == fuel,
    decreases fuel,
{
    if fuel == 0 {
        lemma_walks_without_fuel(insns, pc, 0, end_pc_offset, 0, false);
    } else {
        lemma_until_unfold(insns, pc, end_pc_offset, fuel);
        let insn = insn_at(insns, pc);
        match until_step(pc, insn, end_pc_offset) {
            UntilStep::Next { pc: next, emit } => {
                lemma_until_reports_known(insns, next, end_pc_offset, (fuel - 1) as nat);
                let head = step_report(pc, insn, emit);
                let rest = until_reports(insns, next, end_pc_offset, (fuel - 1) as nat);
                assert forall|k: int| 0 <= k < (head + rest).len() implies {
                    let e = #[trigger] (head + rest)[k];
                    insns.dom().contains(e.0) && insns[e.0] == e.1
                } by {
                    if k >= head.len() {
                        assert((head + rest)[k] == rest[k - head.len()]);
                    }
                }
            },
            _ => {},
        }
    }
}

/// Each instruction the walk following a branch map reports is the one
/// `insns` holds at the pc it is reported with, and a walk that does not
/// finish reports one instruction for each step it takes.
proof fn lemma_branch_map_reports_known(
    insns: Map<u64, InsnInfo>,
    pc: u64,
    branches: u8,
    end_pc_offset: u64,
    branch_map: u32,
    with_address: bool,
    fuel: nat,
)
    ensures
        forall|k: int| 0 <= k < branch_map_reports(insns, pc, branches, end_pc_offset, branch_map, with_address, fuel).len() ==> {
            let e = #[trigger] branch_map_reports(insns, pc, branches, end_pc_offset, branch_map, with_address, fuel)[k];
            insns.dom().contains(e.0) && insns[e.0] == e.1
        },
        branch_map_walk(insns, pc, branches, end_pc_offset, branch_map, with_address, fuel) is Unfinished
            ==> branch_map_reports(insns, pc, branches, end_pc_offset, branch_map, with_address, fuel).len() == fuel,
    decreases fuel,
{
    if fuel == 0 {
        lemma_walks_without_fuel(insns, pc, branches, end_pc_offset, branch_map, with_address);
    } else {
        lemma_branch_map_unfold(insns, pc, branches, end_pc_offset, branch_map, with_address, fuel);
        let insn = insn_at(insns, pc);
        match branch_map_step(pc, branches, insn, end_pc_offset, branch_map, with_address) {
            BranchMapStep::Next { pc: next, branches: left, emit } => {
                lemma_branch_map_reports_known(insns, next, left, end_pc_offset, branch_map, with_address, (fuel - 1) as nat);
                let head = step_report(pc, insn, emit);
                let rest = branch_map_reports(insns, next, left, end_pc_offset, branch_map, with_address, (fuel - 1) as nat);
                assert forall|k: int| 0 <= k < (head + rest).len() implies {
                    let e = #[trigger] (head + rest)[k];
                    insns.dom().contains(e.0) && insns[e.0] == e.1
                } by {
                    if k >= head.len() {
                        assert((head + rest)[k] == rest[k - head.len()]);
                    }
                }
            },
            _ => {},
        }
    }
}

/// The walk to the end of a basic block reports the instructions of `insns`
/// at the pcs it passes. Where those pcs are all distinct it reports no more
/// instructions than `insns` holds, and, allowed more steps than that, it
/// ends: only a walk that comes back to a pc can go on without end.
pub proof fn law_until_walk_ends_on_distinct_pcs(insns: Map<u64, InsnInfo>, pc: u64, end_pc_offset: u64, fuel: nat)
    requires
        insns.dom().finite(),
    ensures
        forall|k: int| 0 <= k < until_reports(insns, pc, end_pc_offset, fuel).len() ==> {
            let e = #[trigger] until_reports(insns, pc, end_pc_offset, fuel)[k];
            insns.dom().contains(e.0) && insns[e.0] == e.1
        },
        report_pcs(until_reports(insns, pc, end_pc_offset, fuel)).no_duplicates()
            ==> until_reports(insns, pc, end_pc_offset, fuel).len() <= insns.dom().len(),
        report_pcs(until_reports(insns, pc, end_pc_offset, fuel)).no_duplicates() && fuel > insns.dom().len()
            ==> !(until_walk(insns, pc, end_pc_offset, fuel) is Unfinished),
{
    lemma_until_reports_known(insns, pc, end_pc_offset, fuel);
    let r = until_reports(insns, pc, end_pc_offset, fuel);
    if report_pcs(r).no_duplicates() {
        assert forall|k: int| 0 <= k < r.len() implies insns.dom().contains(#[trigger] r[k].0) by {
            assert(insns.dom().contains(r[k].0));
        }
        lemma_distinct_reports_bound(insns, r);
    }
}

/// The walk following a branch map reports the instructions of `insns` at
/// the pcs it passes. Where those pcs are all distinct it reports no more
/// instructions than `insns` holds, and, allowed more steps than that, it
/// ends.
pub proof fn law_branch_map_walk_ends_on_distinct_pcs(
    insns: Map<u64, InsnInfo>,
    pc: u64,
    branches: u8,
    end_pc_offset: u64,
    branch_map: u32,
    with_address: bool,
    fuel: nat,
)
    requires
        insns.dom().finite(),
    ensures
        forall|k: int| 0 <= k < branch_map_reports(insns, pc, branches, end_pc_offset, branch_map, with_address, fuel).len() ==> {
            let e = #[trigger] branch_map_reports(insns, pc, branches, end_pc_offset, branch_map, with_address, fuel)[k];
            insns.dom().contains(e.0) && insns[e.0] == e.1
        },
        report_pcs(branch_map_reports(insns, pc, branches, end_pc_offset, branch_map, with_address, fuel)).no_duplicates()
            ==> branch_map_reports(insns, pc, branches, end_pc_offset, branch_map, with_address, fuel).len() <= insns.dom().len(),
        report_pcs(branch_map_reports(insns, pc, branches, end_pc_offset, branch_map, with_address, fuel)).no_duplicates()
            && fuel > insns.dom().len()
            ==> !(branch_map_walk(insns, pc, branches, end_pc_offset, branch_map, with_address, fuel) is Unfinished),
{
    lemma_branch_map_reports_known(insns, pc, branches, end_pc_offset, branch_map, with_address, fuel);
    let r = branch_map_reports(insns, pc, branches, end_pc_offset, branch_map, with_address, fuel);
    if report_pcs(r).no_duplicates() {
        assert forall|k: int| 0 <= k < r.len() implies insns.dom().contains(#[trigger] r[k].0) by {
            assert(insns.dom().contains(r[k].0));
        }
        lemma_distinct_reports_bound(insns, r);
    }
}

/// The walk following a branch map reports one conditional branch for each
/// decision it uses: where it stops or runs out of steps with `left`
/// decisions left, it has reported exactly `branches - left` conditional
/// branches, and where it fails, at most `branches`.
pub proof fn law_branch_map_reports_its_decisions(
    insns: Map<u64, InsnInfo>,
    pc: u64,
    branches: u8,
    end_pc_offset: u64,
    branch_map: u32,
    with_address: bool,
    fuel: nat,
)
    ensures
        match branch_map_walk(insns, pc, branches, end_pc_offset, branch_map, with_address, fuel) {
            WalkEnd::Stopped { branches: left, .. } => left <= branches
                && decisions_in(branch_map_reports(insns, pc, branches, end_pc_offset, branch_map, with_address, fuel))
                == branches - left,
            WalkEnd::Unfinished { branches: left, .. } => left <= branches
                && decisions_in(branch_map_reports(insns, pc, branches, end_pc_offset, branch_map, with_address, fuel))
                == branches - left,
            WalkEnd::Faulted { .. } => decisions_in(
                branch_map_reports(insns, pc, branches, end_pc_offset, branch_map, with_address, fuel),
            ) <= branches,
        },
    decreases fuel,
{
    if fuel == 0 {
        lemma_walks_without_fuel(insns, pc, branches, end_pc_offset, branch_map, with_address);
    } else {
        lemma_branch_map_unfold(insns, pc, branches, end_pc_offset, branch_map, with_address, fuel);
        let insn = insn_at(insns, pc);
        match branch_map_step(pc, branches, insn, end_pc_offset, branch_map, with_address) {
            BranchMapStep::Next { pc: next, branches: left, emit } => {
                law_branch_map_reports_its_decisions(insns, next, left, end_pc_offset, branch_map, with_address, (fuel - 1) as nat);
                let head = step_report(pc, insn, emit);
                let rest = branch_map_reports(insns, next, left, end_pc_offset, branch_map, with_address, (fuel - 1) as nat);
                lemma_decisions_after_step(head, rest);
                lemma_step_decisions(pc, insn, emit);
            },
            BranchMapStep::Stop { emit, .. } => {
                lemma_step_decisions(pc, insn, emit);
            },
            BranchMapStep::Fault { fault } => {
                lemma_step_decisions(pc, insn, fault == WalkFault::MissingImmediate);
            },
        }
    }
}

/// Where a conditional branch at `q` leads: its target when `taken`, the
/// next instruction otherwise.
pub open spec fn branch_next_pc(q: u64, i: InsnInfo, taken: bool) -> u64 {
    if taken {
        pc_plus(q, i.imm.unwrap() as int)
    } else {
        pc_plus(q, i.len as int)
    }
}

/// The first instruction a walk following a branch map reports is the one
/// at its start, and a walk that reports nothing ends where it started.
proof fn lemma_branch_map_first_report(
    insns: Map<u64, InsnInfo>,
    pc: u64,
    branches: u8,
    end_pc_offset: u64,
    branch_map: u32,
    with_address: bool,
    fuel: nat,
)
    ensures
        ({
            let r = branch_map_reports(insns, pc, branches, end_pc_offset, branch_map, with_address, fuel);
            &&& r.len() > 0 ==> r[0].0 == pc
            &&& r.len() == 0 ==> match branch_map_walk(insns, pc, branches, end_pc_offset, branch_map, with_address, fuel) {
                WalkEnd::Stopped { pc: end, .. } => end == pc,
                WalkEnd::Unfinished { pc: end, .. } => end == pc,
                WalkEnd::Faulted { .. } => true,
            }
        }),
{
    if fuel == 0 {
        lemma_walks_without_fuel(insns, pc, branches, end_pc_offset, branch_map, with_address);
    } else {
        lemma_branch_map_unfold(insns, pc, branches, end_pc_offset, branch_map, with_address, fuel);
    }
}

/// The walk following a branch map reads its decisions in order, from bit
/// `branches - 1` down: the conditional branch it reports after `d` others
/// reads bit `branches - 1 - d`, and the walk goes on from the branch's
/// target when that bit is set and from the next instruction when it is
/// clear, which is where the next report, or else the end of the walk, is.
pub proof fn law_branch_map_reads_decisions_in_order(
    insns: Map<u64, InsnInfo>,
    pc: u64,
    branches: u8,
    end_pc_offset: u64,
    branch_map: u32,
    with_address: bool,
    fuel: nat,
)
    ensures
        ({
            let r = branch_map_reports(insns, pc, branches, end_pc_offset, branch_map, with_address, fuel);
            let end = branch_map_walk(insns, pc, branches, end_pc_offset, branch_map, with_address, fuel);
            forall|k: int| 0 <= k < r.len() && uses_decision(#[trigger] r[k].1) ==> {
                let d = decisions_in(r.take(k));
                let after = branch_next_pc(r[k].0, r[k].1, map_bit(branch_map, (branches - 1 - d) as u32));
                &&& d < branches
                &&& k + 1 < r.len() ==> r[k + 1].0 == after
                &&& k + 1 == r.len() ==> match end {
                    WalkEnd::Stopped { pc: p, .. } => p == after,
                    WalkEnd::Unfinished { pc: p, .. } => p == after,
                    WalkEnd::Faulted { .. } => true,
                }
            }
        }),
    decreases fuel,
{
    let r = branch_map_reports(insns, pc, branches, end_pc_offset, branch_map, with_address, fuel);
    let end = branch_map_walk(insns, pc, branches, end_pc_offset, branch_map, with_address, fuel);
    if fuel == 0 {
        lemma_walks_without_fuel(insns, pc, branches, end_pc_offset, branch_map, with_address);
    } else {
        lemma_branch_map_unfold(insns, pc, branches, end_pc_offset, branch_map, with_address, fuel);
        let insn = insn_at(insns, pc);
        match branch_map_step(pc, branches, insn, end_pc_offset, branch_map, with_address) {
            BranchMapStep::Next { pc: next, branches: left, emit } => {
                let rest = branch_map_reports(insns, next, left, end_pc_offset, branch_map, with_address, (fuel - 1) as nat);
                let head = step_report(pc, insn, emit);
                law_branch_map_reads_decisions_in_order(insns, next, left, end_pc_offset, branch_map, with_address, (fuel - 1) as nat);
                lemma_branch_map_first_report(insns, next, left, end_pc_offset, branch_map, with_address, (fuel - 1) as nat);
                lemma_step_decisions(pc, insn, emit);
                assert(head.len() == 1);
                assert forall|k: int| 0 <= k < r.len() && uses_decision(#[trigger] r[k].1) implies {
                    let d = decisions_in(r.take(k));
                    let after = branch_next_pc(r[k].0, r[k].1, map_bit(branch_map, (branches - 1 - d) as u32));
                    &&& d < branches
                    &&& k + 1 < r.len() ==> r[k + 1].0 == after
                    &&& k + 1 == r.len() ==> match end {
                        WalkEnd::Stopped { pc: p, .. } => p == after,
                        WalkEnd::Unfinished { pc: p, .. } => p == after,
                        WalkEnd::Faulted { .. } => true,
                    }
                } by {
                    if k == 0 {
                        assert(r.take(0) =~= Seq::<(u64, InsnInfo)>::empty());
                        assert(decisions_in(r.take(0)) == 0);
                        assert(r[0] == head[0]);
                        if k + 1 < r.len() {
                            assert(r[1] == rest[0]);
                        }
                    } else {
                        assert(r[k] == rest[k - 1]);
                        assert(r.take(k) =~= head + rest.take(k - 1));
                        lemma_decisions_after_step(head, rest.take(k - 1));
                        if k + 1 < r.len() {
                            assert(r[k + 1] == rest[k]);
                        }
                    }
                }
            },
            BranchMapStep::Stop { emit, .. } => {
                lemma_step_decisions(pc, insn, emit);
            },
            BranchMapStep::Fault { fault } => {
                lemma_step_decisions(pc, insn, fault == WalkFault::MissingImmediate);
                assert forall|k: int| 0 <= k < r.len() && uses_decision(#[trigger] r[k].1) implies decisions_in(r.take(k)) < branches by {
                    assert(r.take(0) =~= Seq::<(u64, InsnInfo)>::empty());
                    assert(decisions_in(r.take(0)) == 0);
                }
            },
        }
    }
}

/// Where the decoder stands between packets.
#[derive(Debug, Clone, Copy, PartialEq, Eq)]
pub struct DecoderState {
    pub pc: u64,
    pub timestamp: u64,
}

/// The state that the first packet of a trace sets up: the address and the
/// time of a format 3 packet. `None` for a packet without them, which the
/// decoder cannot start from.
pub open spec fn start_state(packet: Packet) -> Option<DecoderState> {
    match packet {
        Packet::FMT_3 { address: Some(a), time: Some(t), .. } => Some(
            DecoderState { pc: a, timestamp: t },
        ),
        _ => None,
    }
}

/// Decides the state that the first packet of a trace sets up (see `start_state`).
pub fn initial_state(packet: &Packet) -> (r: Option<DecoderState>)
    ensures
        r == start_state(*packet),
{
    match packet {
        Packet::FMT_3 { address: Some(a), time: Some(t), .. } => Some(
            DecoderState { pc: *a, timestamp: *t },
        ),
        _ => None,
    }
}

/// A trace starts from its first packet exactly when that packet is of
/// format 3 and carries an address and a time, whatever its subformat
/// (start, trap or context); the decoder then stands at that address and
/// time.
pub proof fn law_start_from_any_format3_packet(packet: Packet)
    ensures
        start_state(packet) is Some <==> (packet matches Packet::FMT_3 { address: Some(_), time: Some(_), .. }),
        packet matches Packet::FMT_3 { address: Some(a), time: Some(t), .. } ==> start_state(packet)
            == Some(DecoderState { pc: a, timestamp: t }),
{
}

/// What the decoder does with a packet after the first.
#[derive(Debug, Clone, Copy, PartialEq, Eq)]
pub enum PacketAction {
    /// Report a start event at the current time and pc.
    Start,
    /// Walk to the end of the basic block (`walk_until`).
    StepUntil { end_pc_offset: u64 },
    /// Walk following a branch map (`walk_branch_map`), starting with
    /// `branches` decisions left.
    StepBranchMap { end_pc_offset: u64, branch_map: u32, branches: u8, with_address: bool },
    /// The decoder has no handling for this packet.
    Unimplemented,
}

/// The action for a packet after the first: a start packet is reported, an
/// address packet ends the current basic block, and a branch-map packet is
/// walked with its branch count and its address, or, when its count is 0,
/// with 31 decisions and no address. Other packets are not handled.
pub open spec fn action_for(packet: Packet) -> PacketAction {
    match packet {
        Packet::FMT_3 { subfmt, .. } => if subfmt == Subfmt::Start {
            PacketAction::Start
        } else {
            PacketAction::Unimplemented
        },
        Packet::FMT_2 { address, .. } => PacketAction::StepUntil { end_pc_offset: address },
        Packet::FMT_1 { branches, branch_map, address, .. } => if branches == 0 {
            PacketAction::StepBranchMap { end_pc_offset: address, branch_map, branches: 31, with_address: false }
        } else {
            PacketAction::StepBranchMap { end_pc_offset: address, branch_map, branches, with_address: true }
        },
        Packet::Empty => PacketAction::Unimplemented,
    }
}

/// Decides what the decoder does with a packet after the first (see `action_for`).
pub fn packet_action(packet: &Packet) -> (r: PacketAction)
    ensures
        r == action_for(*packet),
{
    match packet {
        Packet::FMT_3 { subfmt, .. } => match subfmt {
            Subfmt::Start => PacketAction::Start,
            Subfmt::Trap => PacketAction::Unimplemented,
            Subfmt::Context => PacketAction::Unimplemented,
            Subfmt::Support => PacketAction::Unimplemented,
        },
        Packet::FMT_2 { address, .. } => PacketAction::StepUntil { end_pc_offset: *address },
        Packet::FMT_1 { branches, branch_map, address, .. } => {
            // use the branch map to handle branch decisions
            if *branches == 0 {
                PacketAction::StepBranchMap {
                    end_pc_offset: *address,
                    branch_map: *branch_map,
                    branches: 31,
                    with_address: false,
                }
            } else {
                PacketAction::StepBranchMap {
                    end_pc_offset: *address,
                    branch_map: *branch_map,
                    branches: *branches,
                    with_address: true,
                }
            }
        },
        Packet::Empty => PacketAction::Unimplemented,
    }
}

} // verus!
