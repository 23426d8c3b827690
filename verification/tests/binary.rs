use std::collections::HashMap;
use trace_decoder::binary::{load_instructions, LoadError};
use trace_decoder::decoder::{step_bb_until, InsnInfo, UntilStep};

/// A minimal little-endian ELF64 file with a section of instructions
/// `text` at `text_addr` (flags `text_flags`), for machine `machine`.
fn elf(machine: u16, text: &[u8], text_addr: u64, text_flags: u64) -> Vec<u8> {
    let shstrtab = b"\0.text\0.shstrtab\0";
    let text_off = 64u64;
    let str_off = text_off + text.len() as u64;
    let mut shoff = str_off + shstrtab.len() as u64;
    shoff = (shoff + 7) / 8 * 8;

    let mut f = Vec::new();
    f.extend_from_slice(&[0x7f, b'E', b'L', b'F', 2, 1, 1, 0, 0, 0, 0, 0, 0, 0, 0, 0]);
    f.extend_from_slice(&2u16.to_le_bytes()); // e_type
    f.extend_from_slice(&machine.to_le_bytes()); // e_machine
    f.extend_from_slice(&1u32.to_le_bytes()); // e_version
    f.extend_from_slice(&text_addr.to_le_bytes()); // e_entry
    f.extend_from_slice(&0u64.to_le_bytes()); // e_phoff
    f.extend_from_slice(&shoff.to_le_bytes()); // e_shoff
    f.extend_from_slice(&0u32.to_le_bytes()); // e_flags
    f.extend_from_slice(&64u16.to_le_bytes()); // e_ehsize
    f.extend_from_slice(&56u16.to_le_bytes()); // e_phentsize
    f.extend_from_slice(&0u16.to_le_bytes()); // e_phnum
    f.extend_from_slice(&64u16.to_le_bytes()); // e_shentsize
    f.extend_from_slice(&3u16.to_le_bytes()); // e_shnum
    f.extend_from_slice(&2u16.to_le_bytes()); // e_shstrndx
    assert_eq!(f.len(), 64);
    f.extend_from_slice(text);
    f.extend_from_slice(shstrtab);
    while (f.len() as u64) < shoff {
        f.push(0);
    }
    let mut section = |name: u32, ty: u32, flags: u64, addr: u64, off: u64, size: u64| {
        f.extend_from_slice(&name.to_le_bytes());
        f.extend_from_slice(&ty.to_le_bytes());
        f.extend_from_slice(&flags.to_le_bytes());
        f.extend_from_slice(&addr.to_le_bytes());
        f.extend_from_slice(&off.to_le_bytes());
        f.extend_from_slice(&size.to_le_bytes());
        f.extend_from_slice(&0u32.to_le_bytes());
        f.extend_from_slice(&0u32.to_le_bytes());
        f.extend_from_slice(&1u64.to_le_bytes());
        f.extend_from_slice(&0u64.to_le_bytes());
    };
    section(0, 0, 0, 0, 0, 0);
    section(1, 1, text_flags, text_addr, text_off, text.len() as u64);
    section(7, 3, 0, 0, str_off, shstrtab.len() as u64);
    f
}

const RISCV: u16 = 243;
const X86_64: u16 = 62;

/// nop; c.nop; j +8
const TEXT: [u8; 10] = [0x13, 0x00, 0x00, 0x00, 0x01, 0x00, 0x6f, 0x00, 0x80, 0x00];

fn load(text: &[u8], flags: u64) -> HashMap<u64, InsnInfo> {
    match load_instructions(&elf(RISCV, text, 0x8000_0000, flags)) {
        Ok(m) => m,
        Err(e) => panic!("load failed: {:?}", e),
    }
}

#[test]
fn loads_executable_section() {
    let m = load(&TEXT, 0x6);
    assert_eq!(m.len(), 3);
    let nop = m[&0x8000_0000];
    assert_eq!((nop.len, nop.raw), (4, 0x13));
    assert!(!nop.is_branch && !nop.is_direct_jump && !nop.is_indirect_jump);
    let cnop = m[&0x8000_0004];
    assert_eq!(cnop.len, 2);
    let j = m[&0x8000_0006];
    assert_eq!(j.len, 4);
    assert!(j.is_direct_jump);
    assert_eq!(j.imm, Some(8));
}

#[test]
fn walks_loaded_instructions() {
    let m = load(&TEXT, 0x6);
    let mut pc = 0x8000_0000u64;
    let mut reported = Vec::new();
    loop {
        match step_bb_until(pc, m.get(&pc).copied(), 0) {
            UntilStep::Next { pc: next, emit } => {
                if emit {
                    reported.push(pc);
                }
                pc = next;
            }
            UntilStep::Stop { pc: next, .. } => {
                pc = next;
                break;
            }
            UntilStep::Fault { fault } => panic!("{:?}", fault),
        }
    }
    assert_eq!(reported, vec![0x8000_0000, 0x8000_0004, 0x8000_0006]);
    assert_eq!(pc, 0x8000_000e);
}

#[test]
fn rejects_non_executable_binaries() {
    assert!(matches!(
        load_instructions(&elf(RISCV, &TEXT, 0x8000_0000, 0x2)),
        Err(LoadError::NoInstructions)
    ));
}

#[test]
fn rejects_other_architectures() {
    assert!(matches!(
        load_instructions(&elf(X86_64, &TEXT, 0x1000, 0x6)),
        Err(LoadError::UnsupportedArchitecture)
    ));
}

#[test]
fn rejects_unparsable_files() {
    let bytes = b"not an object file";
    let expected = object::File::parse(&bytes[..]).err().unwrap();
    assert_eq!(load_instructions(bytes).err(), Some(LoadError::Object(expected)));
}

#[test]
fn rejects_cut_off_code() {
    assert!(matches!(
        load_instructions(&elf(RISCV, &TEXT[..9], 0x8000_0000, 0x6)),
        Err(LoadError::TruncatedCode)
    ));
}

#[test]
fn rejects_overflowing_addresses() {
    assert!(matches!(
        load_instructions(&elf(RISCV, &TEXT, u64::MAX - 4, 0x6)),
        Err(LoadError::AddressOverflow)
    ));
}
