use std::collections::HashMap;
use trace_decoder::decoder::{
    initial_state, is_exec_section, packet_action, refund_addr, step_bb_branch_map,
    step_bb_until, walk_branch_map, walk_until, xlen_for, Arch, BranchMapStep, DecoderState,
    InsnInfo, PacketAction, UntilStep, WalkEnd, WalkFault, Xlen,
};
use trace_decoder::frontend::e_packet::Packet;
use trace_decoder::frontend::encodings::{Fmt, Privilege, Subfmt};

fn insn(len: u8, branch: bool, direct: bool, indirect: bool, imm: Option<i32>) -> InsnInfo {
    InsnInfo { len, is_branch: branch, is_direct_jump: direct, is_indirect_jump: indirect, imm, raw: 0 }
}

fn start_packet(subfmt: Subfmt, address: Option<u64>) -> Packet {
    Packet::FMT_3 {
        fmt: Fmt::Fmt_3,
        subfmt,
        branch: Some(false),
        privilege: Some(Privilege::P_M),
        time: Some(99),
        ecause: None,
        interrupt: None,
        thaddr: None,
        address,
        tval: None,
    }
}

#[test]
fn until_steps() {
    let plain = insn(4, false, false, false, None);
    assert_eq!(step_bb_until(0x100, Some(plain), 8), UntilStep::Next { pc: 0x104, emit: true });
    let jump = insn(4, false, true, false, Some(-0x20));
    assert_eq!(step_bb_until(0x100, Some(jump), 8), UntilStep::Next { pc: 0xe0, emit: true });
    let branch = insn(2, true, false, false, Some(6));
    assert_eq!(step_bb_until(0x100, Some(branch), 8), UntilStep::Stop { pc: 0x100, emit: false });
    let ret = insn(2, false, false, true, None);
    assert_eq!(step_bb_until(0x100, Some(ret), 8), UntilStep::Stop { pc: 0x108, emit: true });
    assert_eq!(step_bb_until(0x100, None, 8), UntilStep::Stop { pc: 0x100, emit: false });
    let bad = insn(4, false, true, false, None);
    assert_eq!(
        step_bb_until(0x100, Some(bad), 8),
        UntilStep::Fault { fault: WalkFault::MissingImmediate }
    );
}

#[test]
fn until_step_wraps() {
    let plain = insn(4, false, false, false, None);
    assert_eq!(step_bb_until(u64::MAX - 1, Some(plain), 0), UntilStep::Next { pc: 2, emit: true });
    let jump = insn(4, false, true, false, Some(-8));
    assert_eq!(step_bb_until(4, Some(jump), 0), UntilStep::Next { pc: u64::MAX - 3, emit: true });
}

#[test]
fn branch_map_steps() {
    let branch = insn(4, true, false, false, Some(0x40));
    // bit 2 (of 3 decisions) is set: taken
    assert_eq!(
        step_bb_branch_map(0x100, 3, Some(branch), 0, 0b100, true),
        BranchMapStep::Next { pc: 0x140, branches: 2, emit: true }
    );
    // bit 1 is clear: not taken
    assert_eq!(
        step_bb_branch_map(0x100, 2, Some(branch), 0, 0b100, true),
        BranchMapStep::Next { pc: 0x104, branches: 1, emit: true }
    );
    // no decision left at a branch
    assert_eq!(
        step_bb_branch_map(0x100, 0, Some(branch), 0, 0b100, true),
        BranchMapStep::Stop { pc: 0x100, emit: false }
    );
    // no decision left and no address: stop before looking
    assert_eq!(
        step_bb_branch_map(0x100, 0, None, 0, 0, false),
        BranchMapStep::Stop { pc: 0x100, emit: false }
    );
    let plain = insn(2, false, false, false, None);
    assert_eq!(
        step_bb_branch_map(0x100, 31, Some(plain), 0, 0, false),
        BranchMapStep::Next { pc: 0x102, branches: 31, emit: true }
    );
    let ret = insn(2, false, false, true, None);
    assert_eq!(
        step_bb_branch_map(0x100, 1, Some(ret), 0x30, 0, true),
        BranchMapStep::Stop { pc: 0x130, emit: true }
    );
    assert_eq!(
        step_bb_branch_map(0x100, 1, Some(ret), 0x30, 0, false),
        BranchMapStep::Fault { fault: WalkFault::IndirectJumpWithoutAddress }
    );
    // many decisions left are fine where no branch is met
    assert_eq!(
        step_bb_branch_map(0x100, 200, None, 0, 0, true),
        BranchMapStep::Stop { pc: 0x100, emit: false }
    );
    assert_eq!(
        step_bb_branch_map(0x100, 200, Some(plain), 0, 0, true),
        BranchMapStep::Next { pc: 0x102, branches: 200, emit: true }
    );
    let taken_no_imm = insn(4, true, false, false, None);
    assert_eq!(
        step_bb_branch_map(0x100, 1, Some(taken_no_imm), 0, 1, true),
        BranchMapStep::Fault { fault: WalkFault::MissingImmediate }
    );
    assert_eq!(
        step_bb_branch_map(0x100, 31, Some(branch), 0, 1 << 30, false),
        BranchMapStep::Next { pc: 0x140, branches: 30, emit: true }
    );
}

#[test]
fn first_packet_state() {
    assert_eq!(
        initial_state(&start_packet(Subfmt::Start, Some(0x8000_0000))),
        Some(DecoderState { pc: 0x8000_0000, timestamp: 99 })
    );
    assert_eq!(initial_state(&start_packet(Subfmt::Context, None)), None);
    let addr = Packet::FMT_2 { fmt: Fmt::Fmt_2, address: 4, notify: false, updiscon: false };
    assert_eq!(initial_state(&addr), None);
}

#[test]
fn packet_actions() {
    assert_eq!(packet_action(&start_packet(Subfmt::Start, Some(0))), PacketAction::Start);
    assert_eq!(packet_action(&start_packet(Subfmt::Trap, Some(0))), PacketAction::Unimplemented);
    let addr = Packet::FMT_2 { fmt: Fmt::Fmt_2, address: 0x44, notify: false, updiscon: false };
    assert_eq!(packet_action(&addr), PacketAction::StepUntil { end_pc_offset: 0x44 });
    let map = Packet::FMT_1 {
        fmt: Fmt::Fmt_1,
        branches: 0,
        branch_map: 5,
        address: 0x10,
        notify: false,
        updiscon: false,
    };
    assert_eq!(
        packet_action(&map),
        PacketAction::StepBranchMap { end_pc_offset: 0x10, branch_map: 5, branches: 31, with_address: false }
    );
    let map = Packet::FMT_1 {
        fmt: Fmt::Fmt_1,
        branches: 4,
        branch_map: 5,
        address: 0x10,
        notify: false,
        updiscon: false,
    };
    assert_eq!(
        packet_action(&map),
        PacketAction::StepBranchMap { end_pc_offset: 0x10, branch_map: 5, branches: 4, with_address: true }
    );
    assert_eq!(packet_action(&Packet::Empty), PacketAction::Unimplemented);
}

#[test]
fn binary_decisions() {
    assert_eq!(xlen_for(Arch::Riscv64), Some(Xlen::XLEN64));
    assert_eq!(xlen_for(Arch::Riscv32), Some(Xlen::XLEN32));
    assert_eq!(xlen_for(Arch::Other), None);
    assert!(is_exec_section(0x6));
    assert!(!is_exec_section(0x3));
}

#[test]
fn refunds_addresses() {
    assert_eq!(refund_addr(0x1234), 0x2468);
    assert_eq!(refund_addr(0x8000_0000_0000_0001), 2);
}

fn program(entries: &[(u64, InsnInfo)]) -> HashMap<u64, InsnInfo> {
    entries.iter().copied().collect()
}

#[test]
fn walk_until_reports_block_and_stops_at_branch() {
    let plain = insn(4, false, false, false, None);
    let jump = insn(4, false, true, false, Some(0x10));
    let branch = insn(4, true, false, false, Some(8));
    let insns = program(&[(0x100, plain), (0x104, jump), (0x114, plain), (0x118, branch)]);
    let (end, reports) = walk_until(&insns, 0x100, 0x40, 10);
    assert_eq!(end, WalkEnd::Stopped { pc: 0x118, branches: 0 });
    assert_eq!(reports, vec![(0x100, plain), (0x104, jump), (0x114, plain)]);
}

#[test]
fn walk_until_ends_after_indirect_jump() {
    let plain = insn(2, false, false, false, None);
    let ret = insn(2, false, false, true, None);
    let insns = program(&[(0x200, plain), (0x202, ret)]);
    let (end, reports) = walk_until(&insns, 0x200, 0x30, 10);
    assert_eq!(end, WalkEnd::Stopped { pc: 0x232, branches: 0 });
    assert_eq!(reports, vec![(0x200, plain), (0x202, ret)]);
}

#[test]
fn walk_until_stops_at_unknown_pc() {
    let plain = insn(4, false, false, false, None);
    let insns = program(&[(0x100, plain)]);
    let (end, reports) = walk_until(&insns, 0x100, 0, 10);
    assert_eq!(end, WalkEnd::Stopped { pc: 0x104, branches: 0 });
    assert_eq!(reports, vec![(0x100, plain)]);
}

#[test]
fn walk_until_unfinished_within_fuel() {
    let plain = insn(4, false, false, false, None);
    let insns = program(&[(0x100, plain), (0x104, plain), (0x108, plain)]);
    let (end, reports) = walk_until(&insns, 0x100, 0, 2);
    assert_eq!(end, WalkEnd::Unfinished { pc: 0x108, branches: 0 });
    assert_eq!(reports, vec![(0x100, plain), (0x104, plain)]);
    let (end, reports) = walk_until(&insns, 0x108, 0, 2);
    assert_eq!(end, WalkEnd::Stopped { pc: 0x10c, branches: 0 });
    assert_eq!(reports, vec![(0x108, plain)]);
}

#[test]
fn walk_until_self_loop_never_ends() {
    let spin = insn(4, false, true, false, Some(0));
    let insns = program(&[(0x100, spin)]);
    let (end, reports) = walk_until(&insns, 0x100, 0, 3);
    assert_eq!(end, WalkEnd::Unfinished { pc: 0x100, branches: 0 });
    assert_eq!(reports, vec![(0x100, spin), (0x100, spin), (0x100, spin)]);
}

#[test]
fn walk_until_reports_jump_before_missing_immediate() {
    let plain = insn(4, false, false, false, None);
    let bad = insn(4, false, true, false, None);
    let insns = program(&[(0x100, plain), (0x104, bad)]);
    let (end, reports) = walk_until(&insns, 0x100, 0, 10);
    assert_eq!(end, WalkEnd::Faulted { fault: WalkFault::MissingImmediate });
    assert_eq!(reports, vec![(0x100, plain), (0x104, bad)]);
}

#[test]
fn walk_branch_map_reads_bits_from_high_to_low() {
    // two branches; the first reads bit 1 (set: taken), the second bit 0
    // (clear: falls through)
    let b1 = insn(4, true, false, false, Some(0x20));
    let b2 = insn(4, true, false, false, Some(0x40));
    let plain = insn(4, false, false, false, None);
    let insns = program(&[(0x100, b1), (0x120, plain), (0x124, b2), (0x128, plain)]);
    let (end, reports) = walk_branch_map(&insns, 0x100, 2, 0, 0b10, false, 10);
    assert_eq!(end, WalkEnd::Stopped { pc: 0x128, branches: 0 });
    assert_eq!(reports, vec![(0x100, b1), (0x120, plain), (0x124, b2)]);
}

#[test]
fn walk_branch_map_with_address_stops_at_next_branch() {
    let b = insn(2, true, false, false, Some(0x10));
    let plain = insn(2, false, false, false, None);
    let insns = program(&[(0x100, b), (0x102, plain), (0x104, b)]);
    let (end, reports) = walk_branch_map(&insns, 0x100, 1, 0, 0b0, true, 10);
    assert_eq!(end, WalkEnd::Stopped { pc: 0x104, branches: 0 });
    assert_eq!(reports, vec![(0x100, b), (0x102, plain)]);
}

#[test]
fn walk_branch_map_with_address_ends_after_indirect_jump() {
    let b = insn(4, true, false, false, Some(0x10));
    let ret = insn(4, false, false, true, None);
    let insns = program(&[(0x100, b), (0x110, ret)]);
    let (end, reports) = walk_branch_map(&insns, 0x100, 3, 0x80, 0b100, true, 10);
    assert_eq!(end, WalkEnd::Stopped { pc: 0x190, branches: 2 });
    assert_eq!(reports, vec![(0x100, b), (0x110, ret)]);
}

#[test]
fn walk_branch_map_refuses_indirect_jump_without_address() {
    let plain = insn(4, false, false, false, None);
    let ret = insn(4, false, false, true, None);
    let insns = program(&[(0x100, plain), (0x104, ret)]);
    let (end, reports) = walk_branch_map(&insns, 0x100, 31, 0, 0, false, 10);
    assert_eq!(end, WalkEnd::Faulted { fault: WalkFault::IndirectJumpWithoutAddress });
    assert_eq!(reports, vec![(0x100, plain)]);
}

#[test]
fn walk_branch_map_unfinished_keeps_decisions() {
    let b = insn(4, true, false, false, Some(8));
    let plain = insn(4, false, false, false, None);
    let insns = program(&[(0x100, b), (0x108, plain), (0x10c, plain)]);
    let (end, reports) = walk_branch_map(&insns, 0x100, 2, 0, 0b10, true, 2);
    assert_eq!(end, WalkEnd::Unfinished { pc: 0x10c, branches: 1 });
    assert_eq!(reports, vec![(0x100, b), (0x108, plain)]);
}
