use object::{Object, ObjectSection};
use rvdasm::disassembler::{Disassembler, Xlen as DasmXlen};
use std::collections::HashMap;
use vstd::prelude::*;

use crate::decoder::{is_exec_section, xlen_for, Arch, InsnInfo, Xlen, SHF_EXECINSTR};

verus! {

#[verifier::external_type_specification]
#[verifier::external_body]
pub struct ExObjectError(object::Error);

/// What the instruction loader reads of an ELF section header.
#[derive(Debug, Clone, Copy, PartialEq, Eq)]
pub struct SectionHeader {
    /// The section's index in the file.
    pub index: usize,
    /// The address the section is loaded at.
    pub address: u64,
    /// Its `sh_flags`, for an ELF section.
    pub sh_flags: Option<u64>,
}

/// Why the instructions of a binary cannot be loaded.
#[derive(Debug, Clone, Copy, PartialEq, Eq)]
pub enum LoadError {
    /// The file, or a section's data, cannot be read.
    Object(object::Error),
    /// The binary is neither RV32 nor RV64.
    UnsupportedArchitecture,
    /// An executable section ends inside an instruction.
    TruncatedCode,
    /// An executable section reaches past the end of the address space.
    AddressOverflow,
    /// No executable section holds an instruction.
    NoInstructions,
}

/// The architecture of the object file `elf`, or the error parsing it gives.
pub uninterp spec fn elf_architecture_of(elf: Seq<u8>) -> Result<Arch, object::Error>;

/// The section headers of the object file `elf`, in file order, or the
/// error parsing it gives.
pub uninterp spec fn elf_sections_of(elf: Seq<u8>) -> Result<Seq<SectionHeader>, object::Error>;

/// The data of the section at `index` of the object file `elf`, or the
/// error reading it gives.
pub uninterp spec fn elf_section_data_of(elf: Seq<u8>, index: usize) -> Result<Seq<u8>, object::Error>;

/// The instructions that `code`, loaded at `entry_point`, holds, by address.
pub uninterp spec fn disassembly(xlen: Xlen, code: Seq<u8>, entry_point: u64) -> Map<u64, InsnInfo>;

/// `object::File::parse` and `Object::architecture`: the architecture of an
/// object file, RV32, RV64 or any other; an error when it cannot be parsed.
#[verifier::external_body]
fn elf_architecture(elf: &[u8]) -> (r: Result<Arch, object::Error>)
    ensures
        r == elf_architecture_of(elf@),
{
    let file = object::File::parse(elf)?;
    Ok(
        match file.architecture() {
            object::Architecture::Riscv64 => Arch::Riscv64,
            object::Architecture::Riscv32 => Arch::Riscv32,
            _ => Arch::Other,
        },
    )
}

/// `object::File::parse` and `Object::sections`: the index, address and ELF
/// flags of each section, in file order; an error when the file cannot be
/// parsed.
#[verifier::external_body]
fn elf_sections(elf: &[u8]) -> (r: Result<Vec<SectionHeader>, object::Error>)
    ensures
        r matches Ok(v) ==> (elf_sections_of(elf@) matches Ok(s) && s == v@),
        r matches Err(e) ==> (elf_sections_of(elf@) matches Err(f) && f == e),
{
    let file = object::File::parse(elf)?;
    Ok(
        file.sections().map(
            |s| SectionHeader {
                index: s.index().0,
                address: s.address(),
                sh_flags: match s.flags() {
                    object::SectionFlags::Elf { sh_flags, .. } => Some(sh_flags.0),
                    _ => None,
                },
            },
        ).collect(),
    )
}

/// `object::File::parse`, `Object::section_by_index` and
/// `ObjectSection::data`: the bytes of a section; an error when they cannot
/// be read.
#[verifier::external_body]
fn elf_section_data(elf: &[u8], index: usize) -> (r: Result<Vec<u8>, object::Error>)
    ensures
        r matches Ok(d) ==> (elf_section_data_of(elf@, index) matches Ok(s) && s == d@),
        r matches Err(e) ==> (elf_section_data_of(elf@, index) matches Err(f) && f == e),
{
    let file = object::File::parse(elf)?;
    let section = file.section_by_index(object::SectionIndex(index))?;
    Ok(section.data()?.to_vec())
}

/// `Disassembler::disassemble_all`: the instructions of `code` loaded at
/// `entry_point`, by address. It panics where an instruction is cut off by
/// the end of `code` or its address overflows, which `code_failure` rules out.
#[verifier::external_body]
fn disassemble_all(xlen: Xlen, code: &[u8], entry_point: u64) -> (r: HashMap<u64, InsnInfo>)
    requires
        code_failure(code@, entry_point, 0) is None,
    ensures
        r@ == disassembly(xlen, code@, entry_point),
{
    let x = match xlen { Xlen::XLEN32 => DasmXlen::XLEN32, Xlen::XLEN64 => DasmXlen::XLEN64 };
    let insns = Disassembler::new(x).disassemble_all(code, entry_point);
    insns.into_iter().map(|(a, i)| (a, InsnInfo {
        len: i.len, is_branch: i.is_branch(), is_direct_jump: i.is_direct_jump(),
        is_indirect_jump: i.is_indirect_jump(), raw: i.raw,
        imm: i.get_imm().map(|imm| imm.get_val_signed_imm()),
    })).collect()
}

/// `HashMap::extend`: the entries of `other` added to `map`, replacing those
/// with the same address.
#[verifier::external_body]
fn extend_insn_map(map: &mut HashMap<u64, InsnInfo>, other: HashMap<u64, InsnInfo>)
    ensures
        final(map)@ == old(map)@.union_prefer_right(other@),
{
    map.extend(other)
}

/// The length of the instruction whose first byte is `b`: 2 for a
/// compressed one, 4 otherwise.
pub open spec fn insn_len_of(b: u8) -> int {
    if b & 3 < 3 {
        2
    } else {
        4
    }
}

/// Walking `code` (loaded at `entry_point`) instruction by instruction from
/// offset `i`, the first instruction cut off by the end of the code, or the
/// first whose address overflows; `None` when neither happens.
pub open spec fn code_failure(code: Seq<u8>, entry_point: u64, i: int) -> Option<LoadError>
    decreases code.len() - i,
{
    if i < 0 || i >= code.len() {
        None
    } else if i + insn_len_of(code[i]) > code.len() {
        Some(LoadError::TruncatedCode)
    } else if i + entry_point > u64::MAX {
        Some(LoadError::AddressOverflow)
    } else {
        code_failure(code, entry_point, i + insn_len_of(code[i]))
    }
}

/// Whether a section header marks a section of instructions.
pub open spec fn is_exec_header(h: SectionHeader) -> bool {
    h.sh_flags matches Some(f) && f & SHF_EXECINSTR != 0
}

/// Why the instructions of the section `h` cannot be loaded, if they cannot.
pub open spec fn section_failure(elf: Seq<u8>, h: SectionHeader) -> Option<LoadError> {
    if is_exec_header(h) {
        match elf_section_data_of(elf, h.index) {
            Err(e) => Some(LoadError::Object(e)),
            Ok(d) => code_failure(d, h.address, 0),
        }
    } else {
        None
    }
}

/// The first failure among the sections `headers[i..]`.
pub open spec fn sections_failure(elf: Seq<u8>, headers: Seq<SectionHeader>, i: int) -> Option<LoadError>
    decreases headers.len() - i,
{
    if i < 0 || i >= headers.len() {
        None
    } else if section_failure(elf, headers[i]) is Some {
        section_failure(elf, headers[i])
    } else {
        sections_failure(elf, headers, i + 1)
    }
}

/// `acc` with the instructions of the executable sections among
/// `headers[i..]` added in order, later ones replacing earlier ones at the
/// same address.
pub open spec fn merged_insns(
    elf: Seq<u8>,
    xlen: Xlen,
    headers: Seq<SectionHeader>,
    i: int,
    acc: Map<u64, InsnInfo>,
) -> Map<u64, InsnInfo>
    decreases headers.len() - i,
{
    if i < 0 || i >= headers.len() {
        acc
    } else {
        let h = headers[i];
        let next = if is_exec_header(h) {
            acc.union_prefer_right(
                disassembly(xlen, elf_section_data_of(elf, h.index).unwrap(), h.address),
            )
        } else {
            acc
        };
        merged_insns(elf, xlen, headers, i + 1, next)
    }
}

/// The register width of a supported architecture.
pub open spec fn xlen_of(arch: Arch) -> Xlen {
    if arch == Arch::Riscv64 {
        Xlen::XLEN64
    } else {
        Xlen::XLEN32
    }
}

/// The instructions of the binary `elf`: those of its executable sections,
/// by address.
pub open spec fn loaded_insns(elf: Seq<u8>) -> Map<u64, InsnInfo> {
    merged_insns(
        elf,
        xlen_of(elf_architecture_of(elf).unwrap()),
        elf_sections_of(elf).unwrap(),
        0,
        Map::empty(),
    )
}

/// Why the instructions of the binary `elf` cannot be loaded, checking in
/// order: the file, its architecture, each executable section, and whether
/// any instruction was found; `None` when they can.
pub open spec fn load_failure(elf: Seq<u8>) -> Option<LoadError> {
    match elf_architecture_of(elf) {
        Err(e) => Some(LoadError::Object(e)),
        Ok(Arch::Other) => Some(LoadError::UnsupportedArchitecture),
        Ok(_) => match elf_sections_of(elf) {
            Err(e) => Some(LoadError::Object(e)),
            Ok(headers) => match sections_failure(elf, headers, 0) {
                Some(f) => Some(f),
                None => if loaded_insns(elf).is_empty() {
                    Some(LoadError::NoInstructions)
                } else {
                    None
                },
            },
        },
    }
}

/// Whether `starts` cuts `code` into whole instructions: it begins at 0,
/// ends at the end of `code`, and each instruction runs to the next start,
/// 2 bytes long when the low two bits of its first byte are not both set
/// (a compressed instruction) and 4 bytes long when they are.
pub open spec fn cuts_into_instructions(code: Seq<u8>, starts: Seq<int>) -> bool {
    &&& starts.len() >= 1
    &&& starts[0] == 0
    &&& starts.last() == code.len()
    &&& forall|k: int| 0 <= k < starts.len() - 1 ==> {
        &&& 0 <= #[trigger] starts[k] < code.len()
        &&& starts[k + 1] == starts[k] + (if code[starts[k]] & 3 == 3 { 4int } else { 2int })
    }
}

/// From the `j`-th cut on, whole instructions at non-overflowing addresses
/// give no failure.
proof fn lemma_whole_instructions_from(code: Seq<u8>, entry_point: u64, starts: Seq<int>, j: int)
    requires
        cuts_into_instructions(code, starts),
        0 <= j < starts.len(),
        entry_point + code.len() <= u64::MAX + 1,
    ensures
        code_failure(code, entry_point, starts[j]) is None,
    decreases starts.len() - j,
{
    if j < starts.len() - 1 {
        lemma_whole_instructions_from(code, entry_point, starts, j + 1);
        let b = code[starts[j]];
        assert((b & 3 < 3) == (b & 3 != 3)) by (bit_vector);
    }
}

/// An instruction whose first byte's low two bits are not both set is 2
/// bytes long, and one whose low bits are both set is 4 bytes long; so a
/// section made of whole 16- and 32-bit instructions, loaded where none of
/// its addresses overflows, is never refused.
pub proof fn law_whole_instructions_load(code: Seq<u8>, entry_point: u64, starts: Seq<int>)
    requires
        cuts_into_instructions(code, starts),
        entry_point + code.len() <= u64::MAX + 1,
    ensures
        forall|b: u8| #[trigger] insn_len_of(b) == (if b & 3 == 3 { 4int } else { 2int }),
        code_failure(code, entry_point, 0) is None,
{
    assert forall|b: u8| #[trigger] insn_len_of(b) == (if b & 3 == 3 { 4int } else { 2int }) by {
        assert((b & 3 < 3) == (b & 3 != 3)) by (bit_vector);
    }
    lemma_whole_instructions_from(code, entry_point, starts, 0);
}

/// Walks `code` instruction by instruction to find the first failure of
/// `code_failure`.
fn check_code(code: &[u8], entry_point: u64) -> (r: Option<LoadError>)
    ensures
        r == code_failure(code@, entry_point, 0),
{
    let mut i: usize = 0;
    while i < code.len()
        invariant
            i <= code.len(),
            code_failure(code@, entry_point, 0) == code_failure(code@, entry_point, i as int),
        decreases code.len() - i,
    {
        let n: usize = if code[i] & 3 < 3 {
            2
        } else {
            4
        };
        if n > code.len() - i {
            return Some(LoadError::TruncatedCode);
        }
        if i as u64 > u64::MAX - entry_point {
            return Some(LoadError::AddressOverflow);
        }
        i = i + n;
    }
    None
}

/// Loads the instructions of a RISC-V binary: those of the sections whose
/// ELF flags mark them executable, disassembled for the binary's register
/// width and merged by address.
pub fn load_instructions(elf: &[u8]) -> (r: Result<HashMap<u64, InsnInfo>, LoadError>)
    ensures
        r is Err <==> load_failure(elf@) is Some,
        r matches Err(e) ==> load_failure(elf@) == Some(e),
        r matches Ok(m) ==> m@ == loaded_insns(elf@),
{
    let arch = match elf_architecture(elf) {
        Ok(a) => a,
        Err(e) => return Err(LoadError::Object(e)),
    };
    let xlen = match xlen_for(arch) {
        Some(x) => x,
        None => return Err(LoadError::UnsupportedArchitecture),
    };
    let headers = match elf_sections(elf) {
        Ok(h) => h,
        Err(e) => return Err(LoadError::Object(e)),
    };
    let ghost hs = headers@;
    assert(xlen == xlen_of(arch));
    assert(arch != Arch::Other);

    let mut insn_map: HashMap<u64, InsnInfo> = HashMap::new();
    for i in 0..headers.len()
        invariant
            hs == headers@,
            elf_sections_of(elf@) is Ok && elf_sections_of(elf@).unwrap() == hs,
            elf_architecture_of(elf@) is Ok && elf_architecture_of(elf@).unwrap() == arch,
            arch != Arch::Other,
            xlen == xlen_of(arch),
            sections_failure(elf@, hs, 0) == sections_failure(elf@, hs, i as int),
            merged_insns(elf@, xlen, hs, 0, Map::empty()) == merged_insns(elf@, xlen, hs, i as int, insn_map@),
    {
        let h = headers[i];
        assert(sections_failure(elf@, hs, i as int) == if section_failure(elf@, h) is Some {
            section_failure(elf@, h)
        } else {
            sections_failure(elf@, hs, i + 1)
        });
        if let Some(sh_flags) = h.sh_flags {
            if is_exec_section(sh_flags) {
                assert(is_exec_header(h));
                let data = match elf_section_data(elf, h.index) {
                    Ok(d) => d,
                    Err(e) => {
                        assert(section_failure(elf@, h) == Some(LoadError::Object(e)));
                        assert(load_failure(elf@) == sections_failure(elf@, hs, 0));
                        return Err(LoadError::Object(e));
                    },
                };
                if let Some(f) = check_code(data.as_slice(), h.address) {
                    proof {
                        assert(section_failure(elf@, h) == Some(f));
                        assert(load_failure(elf@) == sections_failure(elf@, hs, 0));
                    }
                    return Err(f);
                }
                let sec_map = disassemble_all(xlen, data.as_slice(), h.address);
                extend_insn_map(&mut insn_map, sec_map);
            }
        }
    }
    if insn_map.is_empty() {
        return Err(LoadError::NoInstructions);
    }
    Ok(insn_map)
}

} // verus!
