use signalkit::elf::{
    jump_slot_addresses, read_cstr, read_u16, read_u32, read_u64, DT_JMPREL, DT_NULL, DT_PLTREL, DT_PLTRELSZ, DT_REL,
    DT_STRTAB, DT_SYMTAB, EI_CLASS, ELFCLASS32, ET_DYN, PT_DYNAMIC, PT_LOAD, R_ARM_JUMP_SLOT,
};
use signalkit::hooks::{check_import_args, module_selected, HookError, ImportHook, ImportStep};

#[test]
fn rejects_non_elf() {
    assert_eq!(jump_slot_addresses(b"not elf", 0x1000, "open"), Err(HookError::InvalidArgument));
}

fn write_phdr32(buf: &mut [u8], at: usize, p_type: u32, offset: u32, vaddr: u32, filesz: u32, memsz: u32) {
    buf[at..at + 4].copy_from_slice(&p_type.to_le_bytes());
    buf[at + 4..at + 8].copy_from_slice(&offset.to_le_bytes());
    buf[at + 8..at + 12].copy_from_slice(&vaddr.to_le_bytes());
    buf[at + 12..at + 16].copy_from_slice(&vaddr.to_le_bytes());
    buf[at + 16..at + 20].copy_from_slice(&filesz.to_le_bytes());
    buf[at + 20..at + 24].copy_from_slice(&memsz.to_le_bytes());
}

fn write_dyn32(buf: &mut [u8], at: usize, tag: i64, val: u64) {
    buf[at..at + 4].copy_from_slice(&(tag as i32 as u32).to_le_bytes());
    buf[at + 4..at + 8].copy_from_slice(&(val as u32).to_le_bytes());
}

/// Minimal ELF32 ET_DYN with one JUMP_SLOT for `open`.
fn synthetic_elf() -> Vec<u8> {
    let mut elf = vec![0u8; 0x220];
    elf[0..4].copy_from_slice(b"\x7fELF");
    elf[EI_CLASS] = ELFCLASS32;
    elf[5] = 1;
    elf[6] = 1;
    elf[16..18].copy_from_slice(&ET_DYN.to_le_bytes());
    elf[18..20].copy_from_slice(&40u16.to_le_bytes());
    elf[28..32].copy_from_slice(&0x34u32.to_le_bytes());
    elf[40..42].copy_from_slice(&52u16.to_le_bytes());
    elf[42..44].copy_from_slice(&32u16.to_le_bytes());
    elf[44..46].copy_from_slice(&2u16.to_le_bytes());
    write_phdr32(&mut elf, 0x34, PT_LOAD, 0, 0, 0x220, 0x220);
    write_phdr32(&mut elf, 0x54, PT_DYNAMIC, 0xB0, 0xB0, 0x40, 0x40);
    elf[0x80] = 0;
    elf[0x81..0x86].copy_from_slice(b"open\0");
    elf[0x98..0x9C].copy_from_slice(&1u32.to_le_bytes());
    let r_info = (1u32 << 8) | R_ARM_JUMP_SLOT;
    elf[0xA8..0xAC].copy_from_slice(&0x200u32.to_le_bytes());
    elf[0xAC..0xB0].copy_from_slice(&r_info.to_le_bytes());
    write_dyn32(&mut elf, 0xB0, DT_STRTAB, 0x80);
    write_dyn32(&mut elf, 0xB8, DT_SYMTAB, 0x88);
    write_dyn32(&mut elf, 0xC0, DT_JMPREL, 0xA8);
    write_dyn32(&mut elf, 0xC8, DT_PLTRELSZ, 8);
    write_dyn32(&mut elf, 0xD0, DT_PLTREL, DT_REL as u64);
    write_dyn32(&mut elf, 0xD8, DT_NULL, 0);
    elf
}

#[test]
fn finds_arm_jump_slot_in_synthetic_elf() {
    let elf = synthetic_elf();
    let mapped_base = 0x1000_0000usize;
    let slots = jump_slot_addresses(&elf, mapped_base, "open").unwrap();
    assert_eq!(slots.len(), 1);
    assert_eq!(slots[0], mapped_base + 0x200);
}

#[test]
fn other_symbols_and_broken_tables() {
    let elf = synthetic_elf();
    assert_eq!(jump_slot_addresses(&elf, 0x1000, "close"), Ok(vec![]));
    let mut no_dyn = elf.clone();
    no_dyn[0x54..0x58].copy_from_slice(&0u32.to_le_bytes());
    assert_eq!(jump_slot_addresses(&no_dyn, 0x1000, "open"), Err(HookError::System));
    let mut bad_type = elf.clone();
    bad_type[16..18].copy_from_slice(&1u16.to_le_bytes());
    assert_eq!(jump_slot_addresses(&bad_type, 0x1000, "open"), Err(HookError::InvalidArgument));
    let mut bad_class = elf;
    bad_class[EI_CLASS] = 9;
    assert_eq!(jump_slot_addresses(&bad_class, 0x1000, "open"), Err(HookError::InvalidArgument));
}

#[test]
fn little_endian_reads_and_strings() {
    let b = [0x01u8, 0x02, 0x03, 0x04, 0x05, 0x06, 0x07, 0x08, b'h', b'i', 0, 0xff, 0];
    assert_eq!(read_u16(&b, 0), Ok(0x0201));
    assert_eq!(read_u32(&b, 0), Ok(0x0403_0201));
    assert_eq!(read_u64(&b, 0), Ok(0x0807_0605_0403_0201));
    assert_eq!(read_u32(&b, 10), Err(HookError::InvalidArgument));
    assert_eq!(read_u16(&b, usize::MAX), Err(HookError::InvalidArgument));
    assert_eq!(read_cstr(&b, 8), Ok(b"hi".to_vec()));
    assert_eq!(read_cstr(&b, 11), Err(HookError::InvalidArgument));
    assert_eq!(read_cstr(&b, 13), Err(HookError::InvalidArgument));
}

#[test]
fn import_hook_decisions() {
    assert_eq!(check_import_args("", 1), Err(HookError::InvalidArgument));
    assert_eq!(check_import_args("open", 0), Err(HookError::InvalidArgument));
    assert_eq!(check_import_args("open", 1), Ok(()));
    assert!(module_selected("/lib/libc.so.6", None));
    assert!(module_selected("/lib/libc.so.6", Some("libc.so.6")));
    assert!(!module_selected("/lib/libc.so.6", Some("libm.so.6")));

    let mut all = ImportHook::new(false);
    assert_eq!(all.record(&Err(HookError::System)), ImportStep::Next);
    assert_eq!(all.record(&Ok(vec![])), ImportStep::Next);
    assert_eq!(all.finish(), Err(HookError::System));
    assert_eq!(all.record(&Ok(vec![0x10, 0x20])), ImportStep::Next);
    assert_eq!(all.record(&Ok(vec![0x30])), ImportStep::Next);
    assert_eq!(all.finish(), Ok(0x10));
    assert_eq!(all.record(&Err(HookError::Poisoned)), ImportStep::Fail(HookError::Poisoned));

    let mut one = ImportHook::new(true);
    assert_eq!(one.record(&Ok(vec![0x40])), ImportStep::Done);
    assert_eq!(one.finish(), Ok(0x40));
}
