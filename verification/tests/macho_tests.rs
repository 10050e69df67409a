use multi_wechat_rs::macos::config::Entry;
use multi_wechat_rs::macos::macho::{
    patch_binary, try_patch_binary, PatchOutcome, PatchResult, CPU_TYPE_ARM64, CPU_TYPE_X86_64,
};
use multi_wechat_rs::macos::Error;

const RET_FALSE: [u8; 8] = [0x00, 0x00, 0x80, 0x52, 0xC0, 0x03, 0x5F, 0xD6];

fn entry(arch: &str, addr: &str, asm_hex: &str) -> Entry {
    Entry { arch: arch.to_string(), addr: addr.to_string(), asm_hex: asm_hex.to_string() }
}

fn put_u32_le(d: &mut [u8], off: usize, v: u32) {
    d[off..off + 4].copy_from_slice(&v.to_le_bytes());
}

fn put_u64_le(d: &mut [u8], off: usize, v: u64) {
    d[off..off + 8].copy_from_slice(&v.to_le_bytes());
}

fn put_u32_be(d: &mut [u8], off: usize, v: u32) {
    d[off..off + 4].copy_from_slice(&v.to_be_bytes());
}

/// A thin 64-bit Mach-O of `size` bytes with the given segments
/// `(vmaddr, vmsize, fileoff)`.
fn thin(cputype: u32, segments: &[(u64, u64, u64)], size: usize) -> Vec<u8> {
    let mut d = vec![0u8; size];
    put_u32_le(&mut d, 0, 0xFEEDFACF);
    put_u32_le(&mut d, 4, cputype);
    put_u32_le(&mut d, 12, 2);
    put_u32_le(&mut d, 16, segments.len() as u32);
    put_u32_le(&mut d, 20, 72 * segments.len() as u32);
    let mut lc = 32;
    for (vmaddr, vmsize, fileoff) in segments {
        put_u32_le(&mut d, lc, 0x19);
        put_u32_le(&mut d, lc + 4, 72);
        put_u64_le(&mut d, lc + 24, *vmaddr);
        put_u64_le(&mut d, lc + 32, *vmsize);
        put_u64_le(&mut d, lc + 40, *fileoff);
        lc += 72;
    }
    d
}

/// A FAT binary holding the given slices `(cputype, bytes)` at 0x1000, 0x2000, ...
fn fat(slices: &[(u32, Vec<u8>)], swapped: bool) -> Vec<u8> {
    let mut d = vec![0u8; 0x1000 * (slices.len() + 1)];
    let put = |d: &mut Vec<u8>, off: usize, v: u32| {
        if swapped {
            put_u32_le(d, off, v)
        } else {
            put_u32_be(d, off, v)
        }
    };
    put_u32_be(&mut d, 0, if swapped { 0xBEBAFECA } else { 0xCAFEBABE });
    put(&mut d, 4, slices.len() as u32);
    for (i, (cputype, bytes)) in slices.iter().enumerate() {
        let base = 8 + 20 * i;
        let off = 0x1000 * (i + 1);
        put(&mut d, base, *cputype);
        put(&mut d, base + 8, off as u32);
        put(&mut d, base + 12, bytes.len() as u32);
        d[off..off + bytes.len()].copy_from_slice(bytes);
    }
    d
}

fn message(e: &Error) -> (&'static str, String) {
    match e {
        Error::Patch(m) => ("patch", m.clone()),
        Error::Io(m) => ("io", m.clone()),
        Error::AppNotFound(m) => ("app", m.clone()),
        Error::UnsupportedVersion(m) => ("version", m.clone()),
        Error::ConfigLoad(m) => ("config", m.clone()),
        Error::Codesign(m) => ("codesign", m.clone()),
    }
}

fn err_of(data: &mut Vec<u8>, entries: &[Entry]) -> (&'static str, String) {
    message(&patch_binary(data, entries).unwrap_err())
}

fn restore(data: &mut [u8], results: &[PatchResult]) {
    for r in results.iter().rev() {
        let off = r.file_offset as usize;
        data[off..off + r.old_bytes.len()].copy_from_slice(&r.old_bytes);
    }
}

#[test]
fn patches_thin_binary_at_translated_offset() {
    let pristine = thin(CPU_TYPE_ARM64, &[(0x1_0000_0000, 0x1000, 0)], 0x200);
    let mut data = pristine.clone();
    let results = patch_binary(
        &mut data,
        &[entry("x86_64", "100000100", "C3"), entry("arm64", "100000100", "00008052C0035FD6")],
    )
    .unwrap();
    assert_eq!(results.len(), 1);
    let r = &results[0];
    assert_eq!(r.arch, "arm64");
    assert_eq!(r.va, 0x1_0000_0100);
    assert_eq!(r.file_offset, 0x100);
    assert_eq!(r.old_bytes, vec![0u8; 8]);
    assert_eq!(r.new_bytes, RET_FALSE.to_vec());
    assert_eq!(&data[0x100..0x108], &RET_FALSE);
    assert_eq!(data.len(), pristine.len());
    assert_eq!(&data[..0x100], &pristine[..0x100]);
    assert_eq!(&data[0x108..], &pristine[0x108..]);
}

#[test]
fn translation_uses_first_segment_holding_the_address() {
    // __PAGEZERO-like segment first, then one mapped at file offset 0x80
    let mut data = thin(
        CPU_TYPE_X86_64,
        &[(0, 0x1_0000_0000, 0), (0x1_0000_0000, 0x100, 0x80), (0x1_0000_0000, 0x100, 0x100)],
        0x200,
    );
    let results = patch_binary(&mut data, &[entry("x86_64", "100000010", "9090")]).unwrap();
    assert_eq!(results[0].file_offset, 0x90);
    assert_eq!(&data[0x90..0x92], &[0x90, 0x90]);
}

#[test]
fn patches_every_matching_slice_of_a_fat_binary() {
    for swapped in [false, true] {
        let arm = thin(CPU_TYPE_ARM64, &[(0x1_0000_0000, 0x1000, 0)], 0x400);
        let x86 = thin(CPU_TYPE_X86_64, &[(0x1_0000_0000, 0x1000, 0)], 0x400);
        let pristine = fat(&[(CPU_TYPE_ARM64, arm), (CPU_TYPE_X86_64, x86)], swapped);
        let mut data = pristine.clone();
        let entries = [entry("arm64", "100000100", "00008052C0035FD6"), entry("x86_64", "100000200", "31C0C3")];
        let results = patch_binary(&mut data, &entries).unwrap();
        assert_eq!(results.len(), 2);
        assert_eq!(results[0].arch, "arm64");
        assert_eq!(results[0].file_offset, 0x1100);
        assert_eq!(results[1].arch, "x86_64");
        assert_eq!(results[1].file_offset, 0x2200);
        assert_eq!(&data[0x1100..0x1108], &RET_FALSE);
        assert_eq!(&data[0x2200..0x2203], &[0x31, 0xC0, 0xC3]);
        restore(&mut data, &results);
        assert_eq!(data, pristine);
    }
}

#[test]
fn restoring_old_bytes_gives_back_the_binary() {
    let mut pristine = thin(CPU_TYPE_ARM64, &[(0x1_0000_0000, 0x1000, 0)], 0x200);
    for (i, b) in pristine.iter_mut().enumerate().skip(0x100) {
        *b = i as u8;
    }
    let mut data = pristine.clone();
    // the second patch overlaps the first
    let entries = [entry("arm64", "100000100", "00008052C0035FD6"), entry("arm64", "100000104", "AABBCCDDEE")];
    let results = patch_binary(&mut data, &entries).unwrap();
    assert_eq!(results[1].old_bytes, vec![0xC0, 0x03, 0x5F, 0xD6, 0x08]);
    assert_eq!(&data[0x100..0x109], &[0x00, 0x00, 0x80, 0x52, 0xAA, 0xBB, 0xCC, 0xDD, 0xEE]);
    restore(&mut data, &results);
    assert_eq!(data, pristine);
}

#[test]
fn empty_machine_code_patches_nothing() {
    let mut data = thin(CPU_TYPE_ARM64, &[(0x1_0000_0000, 0x10_0000, 0)], 0x200);
    let before = data.clone();
    let results = patch_binary(&mut data, &[entry("arm64", "100000800", "")]).unwrap();
    assert_eq!(results[0].file_offset, 0x800);
    assert!(results[0].old_bytes.is_empty());
    assert_eq!(data, before);
}

#[test]
fn short_file_is_an_io_error() {
    assert_eq!(err_of(&mut vec![0xCF, 0xFA], &[]), ("io", "failed to fill whole buffer".to_string()));
    let mut header_only = vec![0xCF, 0xFA, 0xED, 0xFE];
    assert_eq!(err_of(&mut header_only, &[]), ("io", "failed to fill whole buffer".to_string()));
    let mut fat_header = vec![0xCA, 0xFE, 0xBA, 0xBE, 0, 0, 0, 2, 0, 0];
    assert_eq!(err_of(&mut fat_header, &[]), ("io", "failed to fill whole buffer".to_string()));
}

#[test]
fn non_macho_is_rejected_with_its_magic() {
    let mut data = vec![0x44, 0x33, 0x22, 0x11, 0, 0, 0, 0];
    assert_eq!(err_of(&mut data, &[]), ("patch", "not a 64-bit Mach-O: magic=0x11223344".to_string()));
    let mut data = vec![0x01, 0, 0, 0, 0, 0, 0, 0];
    assert_eq!(err_of(&mut data, &[]), ("patch", "not a 64-bit Mach-O: magic=0x00000001".to_string()));
}

#[test]
fn unknown_arch_is_rejected() {
    let mut data = thin(CPU_TYPE_ARM64, &[(0x1_0000_0000, 0x1000, 0)], 0x200);
    assert_eq!(
        err_of(&mut data, &[entry("arm64e", "100000100", "00")]),
        ("patch", "unknown arch: arm64e".to_string())
    );
}

#[test]
fn invalid_addr_and_asm_are_rejected() {
    let mut data = thin(CPU_TYPE_ARM64, &[(0x1_0000_0000, 0x1000, 0)], 0x200);
    let (kind, m) = err_of(&mut data, &[entry("arm64", "xyz", "00")]);
    assert_eq!(kind, "patch");
    assert_eq!(m, format!("invalid addr 'xyz': {}", u64::from_str_radix("xyz", 16).unwrap_err()));
    assert_eq!(m, "invalid addr 'xyz': invalid digit found in string");
    assert_eq!(
        err_of(&mut data, &[entry("arm64", "", "00")]),
        ("patch", "invalid addr '': cannot parse integer from empty string".to_string())
    );
    assert_eq!(
        err_of(&mut data, &[entry("arm64", "10000000000000000", "00")]),
        ("patch", "invalid addr '10000000000000000': number too large to fit in target type".to_string())
    );
    assert_eq!(
        err_of(&mut data, &[entry("arm64", "100000100", "0")]),
        ("patch", "invalid asm hex: 0".to_string())
    );
}

#[test]
fn address_outside_every_segment_is_rejected() {
    let mut data = thin(CPU_TYPE_ARM64, &[(0x1_0000_0000, 0x1000, 0)], 0x200);
    assert_eq!(
        err_of(&mut data, &[entry("arm64", "200000000", "00")]),
        ("patch", "[arm64] VA 0x200000000 not found in any segment".to_string())
    );
}

#[test]
fn no_matching_entries_is_an_error() {
    let mut data = thin(CPU_TYPE_ARM64, &[(0x1_0000_0000, 0x1000, 0)], 0x200);
    assert_eq!(
        err_of(&mut data, &[entry("x86_64", "100000100", "00")]),
        ("patch", "no matching arch entries found".to_string())
    );
    assert_eq!(err_of(&mut data, &[]), ("patch", "no matching arch entries found".to_string()));
}

#[test]
fn patch_past_end_of_file_is_an_io_error() {
    let mut data = thin(CPU_TYPE_ARM64, &[(0x1_0000_0000, 0x1_0000, 0)], 0x200);
    assert_eq!(
        err_of(&mut data, &[entry("arm64", "1000001fc", "00008052C0035FD6")]),
        ("io", "read at 0x1fc: failed to fill whole buffer".to_string())
    );
}

#[test]
fn fat_slice_without_macho_header_is_rejected() {
    let arm = vec![0u8; 0x100];
    let mut data = fat(&[(CPU_TYPE_ARM64, arm)], false);
    assert_eq!(
        err_of(&mut data, &[entry("arm64", "100000100", "00")]),
        ("patch", "[arm64] not MH_MAGIC_64 at offset 0x1000: 0x00000000".to_string())
    );
}

#[test]
fn error_after_a_patch_keeps_the_patch() {
    let mut data = thin(CPU_TYPE_ARM64, &[(0x1_0000_0000, 0x1000, 0)], 0x200);
    let entries = [entry("arm64", "100000100", "00008052C0035FD6"), entry("arm64", "100000100", "zz")];
    assert_eq!(err_of(&mut data, &entries), ("patch", "invalid asm hex: zz".to_string()));
    assert_eq!(&data[0x100..0x108], &RET_FALSE);
}

#[test]
fn splitting_a_character_aborts() {
    let mut data = thin(CPU_TYPE_ARM64, &[(0x1_0000_0000, 0x1000, 0)], 0x200);
    match try_patch_binary(&mut data, &[entry("arm64", "100000100", "a\u{e9}b")]) {
        PatchOutcome::Aborted => {}
        _ => panic!("expected an abort"),
    }
}

#[test]
fn segment_end_overflow_aborts() {
    let mut data = thin(CPU_TYPE_ARM64, &[(0xFFFF_FFFF_FFFF_F000, 0x2000, 0)], 0x200);
    match try_patch_binary(&mut data, &[entry("arm64", "fffffffffffff100", "00")]) {
        PatchOutcome::Aborted => {}
        _ => panic!("expected an abort"),
    }
}

#[test]
fn try_patch_binary_reports_success_and_failure() {
    let mut data = thin(CPU_TYPE_ARM64, &[(0x1_0000_0000, 0x1000, 0)], 0x200);
    match try_patch_binary(&mut data, &[entry("arm64", "100000100", "00008052C0035FD6")]) {
        PatchOutcome::Patched(rs) => assert_eq!(rs[0].file_offset, 0x100),
        _ => panic!("expected a patch"),
    }
    match try_patch_binary(&mut data, &[entry("arm64", "300000000", "00")]) {
        PatchOutcome::Failed(e) => {
            assert_eq!(message(&e), ("patch", "[arm64] VA 0x300000000 not found in any segment".to_string()))
        }
        _ => panic!("expected a failure"),
    }
}
