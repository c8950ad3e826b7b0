use signalkit::hooks::{
    code_address, ffi_status, loaded_modules, match_prologue, module_base_from_maps, validate_prologue_request, HookError,
    HookTable, NamedHooks, PATCH_LEN,
};
use signalkit::hooks::resolve_rva;

fn original() -> i32 {
    41
}

fn replacement() -> i32 {
    42
}

type I32Hook = fn() -> i32;

#[test]
fn named_hooks_override_originals() {
    let mut hooks: NamedHooks<I32Hook> = NamedHooks::new();
    hooks.clear("test.compute").unwrap();
    assert_eq!(hooks.call_target("test.compute", original)(), 41);
    hooks.register("test.compute", replacement).unwrap();
    assert_eq!(hooks.call_target("test.compute", original)(), 42);
    hooks.clear("test.compute").unwrap();
    assert_eq!(hooks.call_target("test.compute", original)(), 41);
}

#[test]
fn blank_hook_names_are_refused() {
    let mut hooks: NamedHooks<I32Hook> = NamedHooks::new();
    assert_eq!(hooks.register("  ", replacement), Err(HookError::InvalidArgument));
    assert!(hooks.get("  ").is_none());
    hooks.register("a", original).unwrap();
    hooks.register("a", replacement).unwrap();
    assert_eq!(hooks.entries.len(), 1);
    assert_eq!(hooks.get("a").unwrap()(), 42);
}

#[test]
fn error_codes_match_the_c_interface() {
    assert_eq!(ffi_status(Ok(())), 0);
    assert_eq!(ffi_status(Err(HookError::Unsupported)), -1);
    assert_eq!(ffi_status(Err(HookError::InvalidArgument)), -2);
    assert_eq!(ffi_status(Err(HookError::PrologueMismatch)), -8);
    assert_eq!(HookError::System.code(), -5);
}

#[test]
fn module_base_picks_lowest_matching_mapping() {
    let maps = "\
00010000-00020000 r-xp 00000000 fe:01 100  /usr/bin/reader\n\
00020000-00030000 r--p 00010000 fe:01 100  /usr/bin/reader\n\
b6f00000-b6f10000 r-xp 00000000 fe:01 200  /lib/libc.so.6\n";
    assert_eq!(module_base_from_maps(maps, "reader"), Some(0x0001_0000));
    assert_eq!(module_base_from_maps(maps, "/usr/bin/reader"), Some(0x0001_0000));
    assert_eq!(module_base_from_maps(maps, "libc.so.6"), Some(0xb6f0_0000));
    assert_eq!(module_base_from_maps(maps, "nonexistent"), None);
}

#[test]
fn loaded_modules_dedupes_by_path_and_keeps_lowest_base() {
    let maps = "\
00010000-00020000 r-xp 00000000 fe:01 1  /lib/libc.so.6\n\
00020000-00030000 r--p 00010000 fe:01 1  /lib/libc.so.6\n\
00040000-00050000 r-xp 00000000 fe:01 2  /usr/bin/reader\n";
    let modules = loaded_modules(maps);
    assert_eq!(modules.len(), 2);
    assert_eq!(modules[0].path, "/lib/libc.so.6");
    assert_eq!(modules[0].base, 0x0001_0000);
    assert_eq!(modules[1].path, "/usr/bin/reader");
    assert_eq!(modules[1].base, 0x0004_0000);
}

#[test]
fn anonymous_and_relative_mappings_are_not_modules() {
    let maps = "00010000-00020000 rw-p 00000000 00:00 0 \n7f000000-7f001000 rw-p 00000000 00:00 0  [stack]\n30000-40000 r-xp 0 0 0 /a/b\n20000-30000 r-xp 0 0 0 /a/b\n";
    let modules = loaded_modules(maps);
    assert_eq!(modules.len(), 1);
    assert_eq!(modules[0].base, 0x20000);
    assert_eq!(module_base_from_maps(maps, "b"), Some(0x20000));
    assert_eq!(module_base_from_maps(maps, "[stack]"), Some(0x7f00_0000));
}

const TARGET: usize = 0x0001_2345;
const REPLACEMENT: usize = 0x0002_0000;
const PROLOGUE: [u8; 8] = [0x2d, 0xe9, 0xf0, 0x41, 0x04, 0x46, 0x0d, 0x46];

#[test]
fn checked_hook_rejects_short_expected_len() {
    let mut table = HookTable::new();
    let expected = [0xffu8, 0xee, 0xdd, 0xcc];
    let mut trampoline = 0usize;
    let result = table.record_raw_hook_checked(TARGET, REPLACEMENT, false, Some(&expected), &PROLOGUE[..4], || {
        trampoline = TARGET;
        Ok(())
    });
    assert_eq!(result, Err(HookError::InvalidArgument));
    assert_eq!(trampoline, 0);
    assert!(!table.contains(TARGET));
}

#[test]
fn checked_hook_refuses_mismatched_prologue() {
    let mut table = HookTable::new();
    let expected = [0xffu8, 0xee, 0xdd, 0xcc, 0xbb, 0xaa, 0x99, 0x88];
    let mut trampoline = 0usize;
    let result = table.record_raw_hook_checked(TARGET, REPLACEMENT, false, Some(&expected), &PROLOGUE, || {
        trampoline = TARGET;
        Ok(())
    });
    assert_eq!(result, Err(HookError::PrologueMismatch));
    assert_eq!(trampoline, 0);
    assert!(!table.contains(TARGET));
}

#[test]
fn checked_hook_accepts_matching_prologue() {
    let mut table = HookTable::new();
    let expected = PROLOGUE;
    let mut trampoline = 0usize;
    let result = table.record_raw_hook_checked(TARGET, REPLACEMENT, false, Some(&expected), &PROLOGUE, || {
        trampoline = TARGET;
        Ok(())
    });
    assert_eq!(result, Ok(()));
    assert_eq!(trampoline, TARGET);
    assert_eq!(table.unhook_function(TARGET, false, || Ok(())), Ok(()));
    assert!(!table.contains(TARGET));
}

#[test]
fn checked_hook_without_prologue_is_invalid() {
    let table = HookTable::new();
    assert_eq!(
        table.check_checked_install(TARGET, REPLACEMENT, false, None, &PROLOGUE),
        Err(HookError::InvalidArgument)
    );
    assert_eq!(validate_prologue_request(true, 0), Err(HookError::InvalidArgument));
    assert_eq!(validate_prologue_request(true, PATCH_LEN - 1), Err(HookError::InvalidArgument));
    assert_eq!(validate_prologue_request(true, PATCH_LEN), Ok(()));
    assert_eq!(match_prologue(&PROLOGUE, &PROLOGUE[..7]), Err(HookError::PrologueMismatch));
}

#[test]
fn second_hook_at_same_address_is_refused() {
    let mut table = HookTable::new();
    assert_eq!(table.hook_function(TARGET, REPLACEMENT, false, || Ok(())), Ok(()));
    assert!(table.contains(TARGET));
    let mut ran = false;
    let again = table.hook_function(TARGET, REPLACEMENT, false, || {
        ran = true;
        Ok(())
    });
    assert_eq!(again, Err(HookError::AlreadyHooked));
    assert!(!ran);
}

#[test]
fn thumb_targets_share_one_hook() {
    let mut table = HookTable::new();
    assert_eq!(code_address(0x1001, true), 0x1000);
    assert_eq!(code_address(0x1001, false), 0x1001);
    assert_eq!(table.hook_function(0x1001, REPLACEMENT, true, || Ok(())), Ok(()));
    assert!(table.contains(0x1000));
    assert_eq!(table.check_install(0x1000, REPLACEMENT, true), Err(HookError::AlreadyHooked));
    assert_eq!(table.unhook_function(0x1000, true, || Ok(())), Ok(()));
    assert!(!table.contains(0x1000));
}

#[test]
fn failed_install_records_nothing() {
    let mut table = HookTable::new();
    assert_eq!(table.hook_function(TARGET, REPLACEMENT, false, || Err(HookError::System)), Err(HookError::System));
    assert!(!table.contains(TARGET));
    assert_eq!(table.hook_function(0, REPLACEMENT, false, || Ok(())), Err(HookError::InvalidArgument));
    assert_eq!(table.hook_function(TARGET, 0, false, || Ok(())), Err(HookError::InvalidArgument));
}

#[test]
fn unhook_requires_a_recorded_hook() {
    let mut table = HookTable::new();
    assert_eq!(table.unhook_function(TARGET, false, || Ok(())), Err(HookError::NotHooked));
    assert_eq!(table.unhook_function(0, false, || Ok(())), Err(HookError::InvalidArgument));
    assert_eq!(table.hook_function(TARGET, REPLACEMENT, false, || Ok(())), Ok(()));
    assert_eq!(table.unhook_function(TARGET, false, || Err(HookError::System)), Err(HookError::System));
    assert!(!table.contains(TARGET));
    assert_eq!(table.remove(TARGET, false), Err(HookError::NotHooked));
}

#[test]
fn resolve_rva_requires_image() {
    let maps = "00010000-00020000 r-xp 00000000 fe:01 100  /usr/bin/reader\n";
    assert_eq!(resolve_rva(maps, None, 0x10), 0);
    assert_eq!(resolve_rva(maps, Some(""), 0x10), 0);
}

#[test]
fn resolve_rva_adds_the_load_base() {
    let maps = "\
00010000-00020000 r-xp 00000000 fe:01 100  /usr/bin/reader\n\
00008000-00010000 r--p 00000000 fe:01 100  /usr/bin/reader\n";
    assert_eq!(resolve_rva(maps, Some("reader"), 0x10), 0x8010);
    assert_eq!(resolve_rva(maps, Some("/usr/bin/reader"), 0), 0x8000);
    assert_eq!(resolve_rva(maps, Some("libc.so.6"), 0x10), 0);
}
