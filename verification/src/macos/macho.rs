//! Mach-O binary parsing and patching.
//!
//! Supports both FAT (universal) binaries and thin Mach-O 64-bit binaries.
//! Translates virtual addresses to file offsets and writes patch bytes.
//!
//! The binary is handled as the sequence of its bytes: the caller reads the
//! file, hands its contents here, and writes the patched contents back.

use vstd::prelude::*;
use vstd::string::*;
use vstd::utf8::encode_utf8;

use crate::macos::config::{
    decode_hex, from_str_radix_16, hex_slicing_panics, hex_u64_error_text, spec_hex_to_bytes,
    spec_parse_hex_u64, Entry, EntryView, HexDecode,
};
use crate::macos::{Error, ErrorView};
use crate::text::{hex_lower, hex_lower_padded, push_hex, push_hex_padded};

verus! {

// Mach-O magic numbers
pub const FAT_MAGIC: u32 = 0xCAFEBABE;

pub const FAT_CIGAM: u32 = 0xBEBAFECA;

pub const MH_MAGIC_64: u32 = 0xFEEDFACF;

// Load command types
pub const LC_SEGMENT_64: u32 = 0x19;

// CPU types
/// CPU_TYPE_ARM | CPU_ARCH_ABI64
pub const CPU_TYPE_ARM64: u32 = 0x0100000C;

/// CPU_TYPE_X86 | CPU_ARCH_ABI64
pub const CPU_TYPE_X86_64: u32 = 0x01000007;

// ---------------------------------------------------------------------------
// Reading integers out of the bytes
// ---------------------------------------------------------------------------

/// The little-endian 32-bit value of the four bytes at `off`.
pub open spec fn le_u32(d: Seq<u8>, off: int) -> int {
    d[off] + d[off + 1] * 0x100 + d[off + 2] * 0x1_0000 + d[off + 3] * 0x100_0000
}

/// The big-endian 32-bit value of the four bytes at `off`.
pub open spec fn be_u32(d: Seq<u8>, off: int) -> int {
    d[off] * 0x100_0000 + d[off + 1] * 0x1_0000 + d[off + 2] * 0x100 + d[off + 3]
}

/// The little-endian 64-bit value of the eight bytes at `off`.
pub open spec fn le_u64(d: Seq<u8>, off: int) -> int {
    le_u32(d, off) + le_u32(d, off + 4) * 0x1_0000_0000
}

/// A FAT header field: big-endian, or little-endian in a byte-swapped header.
pub open spec fn fat_u32(d: Seq<u8>, off: int, swapped: bool) -> int {
    if swapped {
        le_u32(d, off)
    } else {
        be_u32(d, off)
    }
}

fn get_u32_le(d: &[u8], o: usize) -> (v: u32)
    requires
        o + 4 <= d@.len(),
    ensures
        v == le_u32(d@, o as int),
{
    (d[o] as u32) + (d[o + 1] as u32) * 0x100 + (d[o + 2] as u32) * 0x1_0000 + (d[o + 3] as u32)
        * 0x100_0000
}

fn get_u32_be(d: &[u8], o: usize) -> (v: u32)
    requires
        o + 4 <= d@.len(),
    ensures
        v == be_u32(d@, o as int),
{
    (d[o] as u32) * 0x100_0000 + (d[o + 1] as u32) * 0x1_0000 + (d[o + 2] as u32) * 0x100 + (d[o
        + 3] as u32)
}

fn get_u64_le(d: &[u8], o: usize) -> (v: u64)
    requires
        o + 8 <= d@.len(),
    ensures
        v == le_u64(d@, o as int),
{
    let _len = d.len();
    let lo = get_u32_le(d, o) as u64;
    let hi = get_u32_le(d, o + 4) as u64;
    lo + hi * 0x1_0000_0000
}

fn get_fat_u32(d: &[u8], o: usize, swapped: bool) -> (v: u32)
    requires
        o + 4 <= d@.len(),
    ensures
        v == fat_u32(d@, o as int, swapped),
{
    if swapped {
        get_u32_le(d, o)
    } else {
        get_u32_be(d, o)
    }
}

// ---------------------------------------------------------------------------
// Architectures
// ---------------------------------------------------------------------------

/// The Mach-O CPU type of an architecture name.
pub open spec fn arch_cputype(arch: Seq<char>) -> Option<u32> {
    if arch == "arm64"@ {
        Some(CPU_TYPE_ARM64)
    } else if arch == "x86_64"@ {
        Some(CPU_TYPE_X86_64)
    } else {
        None
    }
}

/// Map arch name string to Mach-O CPU type constant.
fn arch_to_cputype(arch: &str) -> (res: Option<u32>)
    ensures
        res == arch_cputype(arch@),
{
    let name: String = arch.to_owned();
    if name == String::from_str("arm64") {
        Some(CPU_TYPE_ARM64)
    } else if name == String::from_str("x86_64") {
        Some(CPU_TYPE_X86_64)
    } else {
        None
    }
}

// ---------------------------------------------------------------------------
// Results and failures
// ---------------------------------------------------------------------------

/// Result of a single patch operation, for logging/reporting.
#[derive(Debug)]
pub struct PatchResult {
    pub arch: String,
    pub va: u64,
    pub file_offset: u64,
    pub old_bytes: Vec<u8>,
    pub new_bytes: Vec<u8>,
}

/// The mathematical value of a [`PatchResult`].
pub struct PatchResultView {
    pub arch: Seq<char>,
    pub va: u64,
    pub file_offset: u64,
    pub old_bytes: Seq<u8>,
    pub new_bytes: Seq<u8>,
}

impl DeepView for PatchResult {
    type V = PatchResultView;

    open spec fn deep_view(&self) -> PatchResultView {
        PatchResultView {
            arch: self.arch@,
            va: self.va,
            file_offset: self.file_offset,
            old_bytes: self.old_bytes@,
            new_bytes: self.new_bytes@,
        }
    }
}

/// Why patching stopped.
pub enum Failure {
    /// A read ran past the end of the binary.
    Truncated,
    /// A thin binary whose magic is not `MH_MAGIC_64`.
    NotMachO64 { magic: u32 },
    /// An entry names an architecture other than `arm64` and `x86_64`.
    UnknownArch { arch: Seq<char> },
    /// An entry's address is not a radix-16 `u64`.
    InvalidAddr { addr: Seq<char> },
    /// An entry's machine code is not a hex string.
    InvalidAsm { asm_hex: Seq<char> },
    /// A slice of a FAT binary whose magic is not `MH_MAGIC_64`.
    SliceNotMachO { arch: Seq<char>, offset: u64, magic: u32 },
    /// No segment of the slice holds the entry's address.
    VaNotFound { arch: Seq<char>, va: u64 },
    /// The bytes to patch run past the end of the binary.
    PatchOutOfFile { offset: u64 },
    /// No entry matched an architecture of the binary.
    NoMatchingEntries,
}

/// The text of a failed read.
pub open spec fn eof_text() -> Seq<char> {
    "failed to fill whole buffer"@
}

/// The error reported for a failure, with its message.
pub open spec fn failure_error(f: Failure) -> ErrorView {
    match f {
        Failure::Truncated => ErrorView::Io(eof_text()),
        Failure::NotMachO64 { magic } => ErrorView::Patch(
            "not a 64-bit Mach-O: magic=0x"@ + hex_lower_padded(magic as nat, 8),
        ),
        Failure::UnknownArch { arch } => ErrorView::Patch("unknown arch: "@ + arch),
        Failure::InvalidAddr { addr } => ErrorView::Patch(
            "invalid addr '"@ + addr + "': "@ + hex_u64_error_text(addr),
        ),
        Failure::InvalidAsm { asm_hex } => ErrorView::Patch("invalid asm hex: "@ + asm_hex),
        Failure::SliceNotMachO { arch, offset, magic } => ErrorView::Patch(
            "["@ + arch + "] not MH_MAGIC_64 at offset 0x"@ + hex_lower(offset as nat) + ": 0x"@
                + hex_lower_padded(magic as nat, 8),
        ),
        Failure::VaNotFound { arch, va } => ErrorView::Patch(
            "["@ + arch + "] VA 0x"@ + hex_lower(va as nat) + " not found in any segment"@,
        ),
        Failure::PatchOutOfFile { offset } => ErrorView::Io(
            "read at 0x"@ + hex_lower(offset as nat) + ": "@ + eof_text(),
        ),
        Failure::NoMatchingEntries => ErrorView::Patch("no matching arch entries found"@),
    }
}

// ---------------------------------------------------------------------------
// The model of patching
// ---------------------------------------------------------------------------

/// Where patching stands.
pub enum PatchStatus {
    /// Still going (or, at the end, done).
    Running,
    /// Stopped with an error.
    Failed(Failure),
    /// Stopped where the arithmetic of the address translation overflows or a
    /// hex string would be cut inside a UTF-8 character.
    Aborted,
}

/// The state of a patch run: the bytes of the binary, the patches applied so
/// far, and the status.
pub struct PatchState {
    pub data: Seq<u8>,
    pub results: Seq<PatchResultView>,
    pub status: PatchStatus,
}

/// Where an address lies in a slice.
pub enum Located {
    /// At this file offset.
    At(u64),
    /// Not found, or a read failed.
    Fail(Failure),
    /// The offset arithmetic overflows.
    Overflow,
}

/// Walk the remaining `n` load commands starting at `lc`, looking for the
/// first `LC_SEGMENT_64` whose address range holds `va`.
pub open spec fn walk_commands(
    d: Seq<u8>,
    slice: int,
    lc: int,
    n: nat,
    va: u64,
    arch: Seq<char>,
) -> Located
    decreases n,
{
    if n == 0 {
        Located::Fail(Failure::VaNotFound { arch, va })
    } else if lc + 8 > d.len() {
        Located::Fail(Failure::Truncated)
    } else {
        let cmd = le_u32(d, lc);
        let cmdsize = le_u32(d, lc + 4);
        if cmd == LC_SEGMENT_64 && lc + 48 > d.len() {
            Located::Fail(Failure::Truncated)
        } else if cmd == LC_SEGMENT_64 && va >= le_u64(d, lc + 24) && le_u64(d, lc + 24) + le_u64(
            d,
            lc + 32,
        ) > u64::MAX {
            Located::Overflow
        } else if cmd == LC_SEGMENT_64 && va >= le_u64(d, lc + 24) && va < le_u64(d, lc + 24)
            + le_u64(d, lc + 32) {
            let off = slice + le_u64(d, lc + 40) + (va - le_u64(d, lc + 24));
            if off > u64::MAX {
                Located::Overflow
            } else {
                Located::At(off as u64)
            }
        } else {
            walk_commands(d, slice, lc + cmdsize, (n - 1) as nat, va, arch)
        }
    }
}

/// Translate `va` to a file offset in the slice at `slice`.
pub open spec fn locate(d: Seq<u8>, slice: u64, va: u64, arch: Seq<char>) -> Located {
    if slice + 4 > d.len() {
        Located::Fail(Failure::Truncated)
    } else if le_u32(d, slice as int) != MH_MAGIC_64 {
        Located::Fail(
            Failure::SliceNotMachO { arch, offset: slice, magic: le_u32(d, slice as int) as u32 },
        )
    } else if slice + 20 > d.len() {
        Located::Fail(Failure::Truncated)
    } else {
        walk_commands(d, slice as int, slice + 32, le_u32(d, slice + 16) as nat, va, arch)
    }
}

/// The `n` bytes at `off` (none when `n` is zero, wherever `off` lies).
pub open spec fn bytes_at(d: Seq<u8>, off: int, n: int) -> Seq<u8> {
    if n == 0 {
        Seq::empty()
    } else {
        d.subrange(off, off + n)
    }
}

/// `d` with `p` written at `off` (unchanged when `p` is empty).
pub open spec fn write_at(d: Seq<u8>, off: int, p: Seq<u8>) -> Seq<u8> {
    if p.len() == 0 {
        d
    } else {
        d.subrange(0, off) + p + d.subrange(off + p.len(), d.len() as int)
    }
}

/// Whether `n` bytes can be read at `off`.
pub open spec fn fits(d: Seq<u8>, off: int, n: int) -> bool {
    n == 0 || off + n <= d.len()
}

impl PatchState {
    pub open spec fn fail(self, f: Failure) -> PatchState {
        PatchState { status: PatchStatus::Failed(f), ..self }
    }

    pub open spec fn abort(self) -> PatchState {
        PatchState { status: PatchStatus::Aborted, ..self }
    }
}

/// Apply one entry to the slice of CPU type `cpu` at `slice`.
pub open spec fn step(st: PatchState, cpu: u32, slice: u64, e: EntryView) -> PatchState {
    if !(st.status is Running) {
        st
    } else {
        match arch_cputype(e.arch) {
            None => st.fail(Failure::UnknownArch { arch: e.arch }),
            Some(c) => if c != cpu {
                st
            } else {
                match spec_parse_hex_u64(e.addr) {
                    None => st.fail(Failure::InvalidAddr { addr: e.addr }),
                    Some(va) => if hex_slicing_panics(encode_utf8(e.asm_hex)) {
                        st.abort()
                    } else {
                        match spec_hex_to_bytes(encode_utf8(e.asm_hex)) {
                            None => st.fail(Failure::InvalidAsm { asm_hex: e.asm_hex }),
                            Some(p) => match locate(st.data, slice, va, e.arch) {
                                Located::Fail(f) => st.fail(f),
                                Located::Overflow => st.abort(),
                                Located::At(off) => if !fits(st.data, off as int, p.len() as int) {
                                    st.fail(Failure::PatchOutOfFile { offset: off })
                                } else {
                                    PatchState {
                                        data: write_at(st.data, off as int, p),
                                        results: st.results.push(
                                            PatchResultView {
                                                arch: e.arch,
                                                va,
                                                file_offset: off,
                                                old_bytes: bytes_at(
                                                    st.data,
                                                    off as int,
                                                    p.len() as int,
                                                ),
                                                new_bytes: p,
                                            },
                                        ),
                                        status: PatchStatus::Running,
                                    }
                                },
                            },
                        }
                    },
                }
            },
        }
    }
}

/// Apply the entries, in order, to the slice of CPU type `cpu` at `slice`.
pub open spec fn run_entries(st: PatchState, cpu: u32, slice: u64, es: Seq<EntryView>) -> PatchState
    decreases es.len(),
{
    if es.len() == 0 {
        st
    } else {
        step(run_entries(st, cpu, slice, es.drop_last()), cpu, slice, es.last())
    }
}

/// Apply all entries to each slice of the table `(cputype, offset)` in turn.
pub open spec fn run_slices(st: PatchState, table: Seq<(u32, u32)>, es: Seq<EntryView>) -> PatchState
    decreases table.len(),
{
    if table.len() == 0 {
        st
    } else {
        run_entries(
            run_slices(st, table.drop_last(), es),
            table.last().0,
            table.last().1 as u64,
            es,
        )
    }
}

/// The architecture table of a FAT binary with `nfat` slices.
pub open spec fn fat_table(d: Seq<u8>, nfat: nat, swapped: bool) -> Seq<(u32, u32)> {
    Seq::new(
        nfat,
        |i: int| (fat_u32(d, 8 + 20 * i, swapped) as u32, fat_u32(d, 8 + 20 * i + 8, swapped) as u32),
    )
}

/// The state before anything is patched.
pub open spec fn initial(d: Seq<u8>) -> PatchState {
    PatchState { data: d, results: Seq::empty(), status: PatchStatus::Running }
}

/// Patching without the final check for an empty result.
pub open spec fn patch_run(d: Seq<u8>, es: Seq<EntryView>) -> PatchState {
    if d.len() < 4 {
        initial(d).fail(Failure::Truncated)
    } else if be_u32(d, 0) == FAT_MAGIC || be_u32(d, 0) == FAT_CIGAM {
        let swapped = be_u32(d, 0) == FAT_CIGAM;
        if d.len() < 8 {
            initial(d).fail(Failure::Truncated)
        } else {
            let nfat = fat_u32(d, 4, swapped);
            if nfat > 0 && 20 * nfat > d.len() {
                initial(d).fail(Failure::Truncated)
            } else {
                run_slices(initial(d), fat_table(d, nfat as nat, swapped), es)
            }
        }
    } else if le_u32(d, 0) != MH_MAGIC_64 {
        initial(d).fail(Failure::NotMachO64 { magic: le_u32(d, 0) as u32 })
    } else if d.len() < 8 {
        initial(d).fail(Failure::Truncated)
    } else {
        run_entries(initial(d), le_u32(d, 4) as u32, 0, es)
    }
}

/// The outcome of patching the binary `d` with the entries `es`: a FAT
/// binary has every entry applied to each slice whose CPU type matches the
/// entry's architecture, a thin 64-bit binary to itself; it is an error when
/// nothing matched.
pub open spec fn spec_patch_binary(d: Seq<u8>, es: Seq<EntryView>) -> PatchState {
    let st = patch_run(d, es);
    if st.status is Running && st.results.len() == 0 {
        st.fail(Failure::NoMatchingEntries)
    } else {
        st
    }
}


// ---------------------------------------------------------------------------
// Error messages
// ---------------------------------------------------------------------------

fn text(lit: &str) -> (s: String)
    ensures
        s@ == lit@,
{
    String::from_str(lit)
}

fn truncated() -> (e: Error)
    ensures
        e@ == failure_error(Failure::Truncated),
{
    Error::Io(text("failed to fill whole buffer"))
}

fn not_macho64(magic: u32) -> (e: Error)
    ensures
        e@ == failure_error(Failure::NotMachO64 { magic }),
{
    let mut m = text("not a 64-bit Mach-O: magic=0x");
    push_hex_padded(&mut m, magic as u64, 8);
    Error::Patch(m)
}

fn unknown_arch(arch: &str) -> (e: Error)
    ensures
        e@ == failure_error(Failure::UnknownArch { arch: arch@ }),
{
    let mut m = text("unknown arch: ");
    m.append(arch);
    Error::Patch(m)
}

fn invalid_addr(addr: &str, detail: &str) -> (e: Error)
    requires
        detail@ == hex_u64_error_text(addr@),
    ensures
        e@ == failure_error(Failure::InvalidAddr { addr: addr@ }),
{
    let mut m = text("invalid addr '");
    m.append(addr);
    m.append("': ");
    m.append(detail);
    Error::Patch(m)
}

fn invalid_asm(asm_hex: &str) -> (e: Error)
    ensures
        e@ == failure_error(Failure::InvalidAsm { asm_hex: asm_hex@ }),
{
    let mut m = text("invalid asm hex: ");
    m.append(asm_hex);
    Error::Patch(m)
}

fn slice_not_macho(arch: &str, offset: u64, magic: u32) -> (e: Error)
    ensures
        e@ == failure_error(Failure::SliceNotMachO { arch: arch@, offset, magic }),
{
    let mut m = text("[");
    m.append(arch);
    m.append("] not MH_MAGIC_64 at offset 0x");
    push_hex(&mut m, offset);
    m.append(": 0x");
    push_hex_padded(&mut m, magic as u64, 8);
    Error::Patch(m)
}

fn va_not_found(arch: &str, va: u64) -> (e: Error)
    ensures
        e@ == failure_error(Failure::VaNotFound { arch: arch@, va }),
{
    let mut m = text("[");
    m.append(arch);
    m.append("] VA 0x");
    push_hex(&mut m, va);
    m.append(" not found in any segment");
    Error::Patch(m)
}

fn patch_out_of_file(offset: u64) -> (e: Error)
    ensures
        e@ == failure_error(Failure::PatchOutOfFile { offset }),
{
    let mut m = text("read at 0x");
    push_hex(&mut m, offset);
    m.append(": ");
    m.append("failed to fill whole buffer");
    Error::Io(m)
}

fn no_matching_entries() -> (e: Error)
    ensures
        e@ == failure_error(Failure::NoMatchingEntries),
{
    Error::Patch(text("no matching arch entries found"))
}


// ---------------------------------------------------------------------------
// Address translation
// ---------------------------------------------------------------------------

/// What looking up an address in a slice came to.
enum LocateOutcome {
    At(u64),
    Fail(Error),
    Overflow,
}

spec fn locate_matches(r: LocateOutcome, l: Located) -> bool {
    match (r, l) {
        (LocateOutcome::At(a), Located::At(b)) => a == b,
        (LocateOutcome::Fail(e), Located::Fail(f)) => e@ == failure_error(f),
        (LocateOutcome::Overflow, Located::Overflow) => true,
        _ => false,
    }
}

/// Translate `va` to a file offset by walking the `LC_SEGMENT_64` load
/// commands of the Mach-O slice at `slice`.
fn locate_va(d: &[u8], slice: u64, va: u64, arch: &str) -> (r: LocateOutcome)
    ensures
        locate_matches(r, locate(d@, slice, va, arch@)),
{
    let len = d.len();
    if slice as u128 + 4 > len as u128 {
        return LocateOutcome::Fail(truncated());
    }
    let magic = get_u32_le(d, slice as usize);
    if magic != MH_MAGIC_64 {
        return LocateOutcome::Fail(slice_not_macho(arch, slice, magic));
    }
    if slice as u128 + 20 > len as u128 {
        return LocateOutcome::Fail(truncated());
    }
    let ncmds = get_u32_le(d, slice as usize + 16);
    let ghost target = walk_commands(d@, slice as int, slice + 32, ncmds as nat, va, arch@);
    let mut lc: u128 = slice as u128 + 32;
    let mut k: u32 = 0;
    while k < ncmds
        invariant
            len == d@.len(),
            k <= ncmds,
            lc <= slice + 32 + k * 0xFFFF_FFFFu128,
            walk_commands(d@, slice as int, lc as int, (ncmds - k) as nat, va, arch@) == target,
            target == locate(d@, slice, va, arch@),
        decreases ncmds - k,
    {
        if lc + 8 > len as u128 {
            return LocateOutcome::Fail(truncated());
        }
        let o = lc as usize;
        let cmd = get_u32_le(d, o);
        let cmdsize = get_u32_le(d, o + 4);
        if cmd == LC_SEGMENT_64 {
            if lc + 48 > len as u128 {
                return LocateOutcome::Fail(truncated());
            }
            let vmaddr = get_u64_le(d, o + 24);
            let vmsize = get_u64_le(d, o + 32);
            let fileoff = get_u64_le(d, o + 40);
            if va >= vmaddr {
                if vmaddr as u128 + vmsize as u128 > u64::MAX as u128 {
                    return LocateOutcome::Overflow;
                }
                if va < vmaddr + vmsize {
                    let off: u128 = slice as u128 + fileoff as u128 + (va - vmaddr) as u128;
                    if off > u64::MAX as u128 {
                        return LocateOutcome::Overflow;
                    }
                    return LocateOutcome::At(off as u64);
                }
            }
        }
        lc = lc + cmdsize as u128;
        k = k + 1;
    }
    LocateOutcome::Fail(va_not_found(arch, va))
}


// ---------------------------------------------------------------------------
// Applying entries
// ---------------------------------------------------------------------------

/// What applying one entry (or a run of entries) came to.
enum StepOutcome {
    Next,
    Stop(Error),
    Abort,
}

spec fn outcome_matches(r: StepOutcome, s: PatchStatus) -> bool {
    match (r, s) {
        (StepOutcome::Next, PatchStatus::Running) => true,
        (StepOutcome::Stop(e), PatchStatus::Failed(f)) => e@ == failure_error(f),
        (StepOutcome::Abort, PatchStatus::Aborted) => true,
        _ => false,
    }
}

spec fn running(data: Seq<u8>, results: Seq<PatchResultView>) -> PatchState {
    PatchState { data, results, status: PatchStatus::Running }
}

/// The `n` bytes of `d` at `off`.
fn copy_bytes(d: &Vec<u8>, off: usize, n: usize) -> (out: Vec<u8>)
    requires
        off + n <= d@.len(),
    ensures
        out@ == d@.subrange(off as int, off + n),
{
    let mut out: Vec<u8> = Vec::new();
    let _len = d.len();
    for i in 0..n
        invariant
            off + n <= d@.len() <= usize::MAX,
            out@ == d@.subrange(off as int, off + i),
    {
        out.push(d[off + i]);
        assert(out@ =~= d@.subrange(off as int, off + i + 1));
    }
    out
}

/// Overwrite the bytes of `d` at `off` with `p`.
fn write_bytes(d: &mut Vec<u8>, off: usize, p: &Vec<u8>)
    requires
        off + p@.len() <= old(d)@.len(),
    ensures
        final(d)@ == old(d)@.subrange(0, off as int) + p@ + old(d)@.subrange(
            off + p@.len(),
            old(d)@.len() as int,
        ),
{
    let ghost d0 = d@;
    let n = p.len();
    let _len = d.len();
    assert(d@ =~= d0.subrange(0, off as int) + p@.take(0) + d0.subrange(off as int, d0.len() as int));
    for i in 0..n
        invariant
            n == p@.len(),
            off + n <= d0.len() <= usize::MAX,
            d@ == d0.subrange(0, off as int) + p@.take(i as int) + d0.subrange(
                off + i,
                d0.len() as int,
            ),
    {
        d[off + i] = p[i];
        assert(d@ =~= d0.subrange(0, off as int) + p@.take(i + 1) + d0.subrange(
            off + i + 1,
            d0.len() as int,
        ));
    }
    assert(p@.take(n as int) =~= p@);
}

/// Apply one entry to the slice of CPU type `cpu` at `slice`.
fn apply_entry(
    data: &mut Vec<u8>,
    results: &mut Vec<PatchResult>,
    cpu: u32,
    slice: u64,
    e: &Entry,
) -> (r: StepOutcome)
    ensures
        ({
            let st1 = step(running(old(data)@, old(results).deep_view()), cpu, slice, e.deep_view());
            &&& final(data)@ == st1.data
            &&& final(results).deep_view() == st1.results
            &&& outcome_matches(r, st1.status)
        }),
{
    let ghost st0 = running(data@, results.deep_view());
    let arch = e.arch.as_str();
    let c = match arch_to_cputype(arch) {
        None => {
            return StepOutcome::Stop(unknown_arch(arch));
        },
        Some(c) => c,
    };
    if c != cpu {
        return StepOutcome::Next;
    }
    let va = match from_str_radix_16(e.addr.as_str()) {
        Ok(v) => v,
        Err(failure) => {
            return StepOutcome::Stop(invalid_addr(e.addr.as_str(), failure.1.as_str()));
        },
    };
    let patch = match decode_hex(e.asm_hex.as_str()) {
        HexDecode::SplitsChar => {
            return StepOutcome::Abort;
        },
        HexDecode::Invalid => {
            return StepOutcome::Stop(invalid_asm(e.asm_hex.as_str()));
        },
        HexDecode::Bytes(p) => p,
    };
    let off = match locate_va(data.as_slice(), slice, va, arch) {
        LocateOutcome::At(o) => o,
        LocateOutcome::Fail(err) => {
            return StepOutcome::Stop(err);
        },
        LocateOutcome::Overflow => {
            return StepOutcome::Abort;
        },
    };
    let n = patch.len();
    if n > 0 && off as u128 + n as u128 > data.len() as u128 {
        return StepOutcome::Stop(patch_out_of_file(off));
    }
    let ghost d0 = data@;
    let old_bytes = if n > 0 {
        let o = copy_bytes(data, off as usize, n);
        write_bytes(data, off as usize, &patch);
        o
    } else {
        Vec::new()
    };
    let ghost r0 = results@;
    let pr = PatchResult {
        arch: e.arch.clone(),
        va,
        file_offset: off,
        old_bytes,
        new_bytes: patch,
    };
    results.push(pr);
    proof {
        let st1 = step(st0, cpu, slice, e.deep_view());
        assert(bytes_at(d0, off as int, n as int) == pr.old_bytes@);
        assert(pr.deep_view() == st1.results.last());
        assert(results.deep_view() =~= st1.results) by {
            assert forall|k: int| 0 <= k < results@.len() implies results.deep_view()[k] == st1.results[k] by {
                if k < r0.len() {
                    assert(results@[k] == r0[k]);
                }
            }
        }
        assert(data@ =~= st1.data);
    }
    StepOutcome::Next
}


/// A stopped run stays as it is.
proof fn lemma_run_entries_stopped(st: PatchState, cpu: u32, slice: u64, es: Seq<EntryView>)
    requires
        !(st.status is Running),
    ensures
        run_entries(st, cpu, slice, es) == st,
    decreases es.len(),
{
    if es.len() > 0 {
        lemma_run_entries_stopped(st, cpu, slice, es.drop_last());
    }
}

/// Once a prefix of the entries stops the run, the rest changes nothing.
proof fn lemma_run_entries_prefix_stopped(
    st: PatchState,
    cpu: u32,
    slice: u64,
    es: Seq<EntryView>,
    k: int,
    m: int,
)
    requires
        0 <= k <= m <= es.len(),
        !(run_entries(st, cpu, slice, es.take(k)).status is Running),
    ensures
        run_entries(st, cpu, slice, es.take(m)) == run_entries(st, cpu, slice, es.take(k)),
    decreases m - k,
{
    if m > k {
        lemma_run_entries_prefix_stopped(st, cpu, slice, es, k, m - 1);
        assert(es.take(m).drop_last() =~= es.take(m - 1));
    }
}

/// Apply the entries, in order, to the slice of CPU type `cpu` at `slice`.
fn apply_entries(
    data: &mut Vec<u8>,
    results: &mut Vec<PatchResult>,
    cpu: u32,
    slice: u64,
    entries: &[Entry],
) -> (r: StepOutcome)
    ensures
        ({
            let st1 = run_entries(
                running(old(data)@, old(results).deep_view()),
                cpu,
                slice,
                entries.deep_view(),
            );
            &&& final(data)@ == st1.data
            &&& final(results).deep_view() == st1.results
            &&& outcome_matches(r, st1.status)
        }),
{
    let ghost st0 = running(data@, results.deep_view());
    let ghost es = entries.deep_view();
    let n = entries.len();
    assert(es.take(0) =~= Seq::<EntryView>::empty());
    for j in 0..n
        invariant
            n == es.len(),
            es == entries.deep_view(),
            st0 == running(old(data)@, old(results).deep_view()),
            running(data@, results.deep_view()) == run_entries(st0, cpu, slice, es.take(j as int)),
    {
        let ghost before = run_entries(st0, cpu, slice, es.take(j as int));
        let r = apply_entry(data, results, cpu, slice, &entries[j]);
        let ghost after = run_entries(st0, cpu, slice, es.take(j + 1));
        proof {
            assert(es.take(j + 1).drop_last() =~= es.take(j as int));
            assert(es.take(j + 1).last() == entries[j as int].deep_view());
            assert(after == step(before, cpu, slice, entries[j as int].deep_view()));
        }
        if !matches!(r, StepOutcome::Next) {
            proof {
                assert(!(after.status is Running));
                lemma_run_entries_prefix_stopped(st0, cpu, slice, es, j + 1, n as int);
                assert(es.take(n as int) =~= es);
            }
            return r;
        }
    }
    assert(es.take(n as int) =~= es);
    StepOutcome::Next
}

/// A stopped run stays as it is.
proof fn lemma_run_slices_stopped(st: PatchState, table: Seq<(u32, u32)>, es: Seq<EntryView>)
    requires
        !(st.status is Running),
    ensures
        run_slices(st, table, es) == st,
    decreases table.len(),
{
    if table.len() > 0 {
        lemma_run_slices_stopped(st, table.drop_last(), es);
        lemma_run_entries_stopped(st, table.last().0, table.last().1 as u64, es);
    }
}

proof fn lemma_run_slices_prefix_stopped(
    st: PatchState,
    table: Seq<(u32, u32)>,
    es: Seq<EntryView>,
    k: int,
    m: int,
)
    requires
        0 <= k <= m <= table.len(),
        !(run_slices(st, table.take(k), es).status is Running),
    ensures
        run_slices(st, table.take(m), es) == run_slices(st, table.take(k), es),
    decreases m - k,
{
    if m > k {
        lemma_run_slices_prefix_stopped(st, table, es, k, m - 1);
        assert(table.take(m).drop_last() =~= table.take(m - 1));
        lemma_run_entries_stopped(
            run_slices(st, table.take(m - 1), es),
            table[m - 1].0,
            table[m - 1].1 as u64,
            es,
        );
    }
}

/// Apply all entries to each slice of `table` in turn.
fn apply_slices(
    data: &mut Vec<u8>,
    results: &mut Vec<PatchResult>,
    table: &Vec<(u32, u32)>,
    entries: &[Entry],
) -> (r: StepOutcome)
    ensures
        ({
            let st1 = run_slices(
                running(old(data)@, old(results).deep_view()),
                table@,
                entries.deep_view(),
            );
            &&& final(data)@ == st1.data
            &&& final(results).deep_view() == st1.results
            &&& outcome_matches(r, st1.status)
        }),
{
    let ghost st0 = running(data@, results.deep_view());
    let ghost es = entries.deep_view();
    let n = table.len();
    assert(table@.take(0) =~= Seq::<(u32, u32)>::empty());
    for i in 0..n
        invariant
            n == table@.len(),
            es == entries.deep_view(),
            st0 == running(old(data)@, old(results).deep_view()),
            running(data@, results.deep_view()) == run_slices(st0, table@.take(i as int), es),
    {
        let (cpu, off) = table[i];
        let ghost before = run_slices(st0, table@.take(i as int), es);
        let r = apply_entries(data, results, cpu, off as u64, entries);
        let ghost after = run_slices(st0, table@.take(i + 1), es);
        proof {
            assert(table@.take(i + 1).drop_last() =~= table@.take(i as int));
            assert(table@.take(i + 1).last() == table@[i as int]);
            assert(after == run_entries(before, cpu, off as u64, es));
        }
        if !matches!(r, StepOutcome::Next) {
            proof {
                assert(!(after.status is Running));
                lemma_run_slices_prefix_stopped(st0, table@, es, i + 1, n as int);
                assert(table@.take(n as int) =~= table@);
            }
            return r;
        }
    }
    assert(table@.take(n as int) =~= table@);
    StepOutcome::Next
}


// ---------------------------------------------------------------------------
// Patching a binary
// ---------------------------------------------------------------------------

/// What patching a binary came to.
pub enum PatchOutcome {
    /// Every matching entry was applied; these are the patches, in order.
    Patched(Vec<PatchResult>),
    /// Patching stopped with this error (patches made before it stay made).
    Failed(Error),
    /// Patching stopped where the address arithmetic overflows or a hex
    /// string would be cut inside a UTF-8 character.
    Aborted,
}

/// Whether `r` is the outcome that the patch state `st` describes.
pub open spec fn describes(r: PatchOutcome, st: PatchState) -> bool {
    match r {
        PatchOutcome::Patched(rs) => st.status is Running && rs.deep_view() == st.results,
        PatchOutcome::Failed(e) => st.status matches PatchStatus::Failed(f) && e@ == failure_error(f),
        PatchOutcome::Aborted => st.status is Aborted,
    }
}

/// Read the architecture table of a FAT binary.
fn read_fat_table(d: &[u8], nfat: u32, swapped: bool) -> (table: Vec<(u32, u32)>)
    requires
        20 * nfat <= d@.len(),
    ensures
        table@ == fat_table(d@, nfat as nat, swapped),
{
    let _len = d.len();
    let mut table: Vec<(u32, u32)> = Vec::new();
    for i in 0..nfat
        invariant
            20 * nfat <= d@.len() <= usize::MAX,
            table@ =~= fat_table(d@, i as nat, swapped),
    {
        let base = 8 + 20 * (i as usize);
        let cputype = get_fat_u32(d, base, swapped);
        let offset = get_fat_u32(d, base + 8, swapped);
        table.push((cputype, offset));
        assert(table@ =~= fat_table(d@, (i + 1) as nat, swapped));
    }
    table
}

/// Apply patch entries to the bytes of a Mach-O binary. Where patching has to
/// stop because the address arithmetic overflows or a hex string would be cut
/// inside a UTF-8 character, this reports `Aborted` instead of requiring that
/// it does not happen.
pub fn try_patch_binary(data: &mut Vec<u8>, entries: &[Entry]) -> (res: PatchOutcome)
    ensures
        final(data)@ == spec_patch_binary(old(data)@, entries.deep_view()).data,
        describes(res, spec_patch_binary(old(data)@, entries.deep_view())),
{
    let ghost d0 = data@;
    let ghost es = entries.deep_view();
    let len = data.len();
    if len < 4 {
        return PatchOutcome::Failed(truncated());
    }
    let magic_be = get_u32_be(data.as_slice(), 0);
    let mut results: Vec<PatchResult> = Vec::new();
    assert(results.deep_view() =~= Seq::<PatchResultView>::empty());
    let r;
    if magic_be == FAT_MAGIC || magic_be == FAT_CIGAM {
        let swapped = magic_be == FAT_CIGAM;
        if len < 8 {
            return PatchOutcome::Failed(truncated());
        }
        let nfat = get_fat_u32(data.as_slice(), 4, swapped);
        if nfat > 0 && 20 * (nfat as u128) > len as u128 {
            return PatchOutcome::Failed(truncated());
        }
        let table = read_fat_table(data.as_slice(), nfat, swapped);
        r = apply_slices(data, &mut results, &table, entries);
    } else {
        let magic_le = get_u32_le(data.as_slice(), 0);
        if magic_le != MH_MAGIC_64 {
            return PatchOutcome::Failed(not_macho64(magic_le));
        }
        if len < 8 {
            return PatchOutcome::Failed(truncated());
        }
        let cpu = get_u32_le(data.as_slice(), 4);
        r = apply_entries(data, &mut results, cpu, 0, entries);
    }
    match r {
        StepOutcome::Next => {
            if results.len() == 0 {
                PatchOutcome::Failed(no_matching_entries())
            } else {
                PatchOutcome::Patched(results)
            }
        },
        StepOutcome::Stop(e) => PatchOutcome::Failed(e),
        StepOutcome::Abort => PatchOutcome::Aborted,
    }
}

/// Apply patch entries to the bytes of a Mach-O binary.
/// Returns details of each applied patch (including the bytes it replaced, for restore).
///
/// The bytes of a thin 64-bit binary are patched with every entry whose
/// architecture is its CPU type; those of a FAT binary with every entry whose
/// architecture is the CPU type of a slice, slice by slice. Each entry's
/// address is translated through the `LC_SEGMENT_64` load commands of its
/// slice to a file offset, where its machine code is written. On an error,
/// the patches made before it stay made.
pub fn patch_binary(data: &mut Vec<u8>, entries: &[Entry]) -> (res: Result<Vec<PatchResult>, Error>)
    requires
        !(spec_patch_binary(old(data)@, entries.deep_view()).status is Aborted),
    ensures
        ({
            let st = spec_patch_binary(old(data)@, entries.deep_view());
            &&& final(data)@ == st.data
            &&& match res {
                Ok(rs) => st.status is Running && rs.deep_view() == st.results && patch_keys(
                    rs.deep_view(),
                ) == requested_keys(old(data)@, entries.deep_view()),
                Err(e) => st.status matches PatchStatus::Failed(f) && e@ == failure_error(f),
            }
        }),
{
    proof {
        lemma_every_matching_entry_patched(data@, entries.deep_view());
    }
    match try_patch_binary(data, entries) {
        PatchOutcome::Patched(rs) => Ok(rs),
        PatchOutcome::Failed(e) => Err(e),
        PatchOutcome::Aborted => vstd::pervasive::unreached(),
    }
}


// ---------------------------------------------------------------------------
// Laws
// ---------------------------------------------------------------------------

/// Write back the old bytes of the patches `rs` over `d`, last patch first.
pub open spec fn restore(d: Seq<u8>, rs: Seq<PatchResultView>) -> Seq<u8>
    decreases rs.len(),
{
    if rs.len() == 0 {
        d
    } else {
        restore(write_at(d, rs.last().file_offset as int, rs.last().old_bytes), rs.drop_last())
    }
}

/// Whether byte `i` lies in the range that one of the patches `rs` wrote.
pub open spec fn touched(rs: Seq<PatchResultView>, i: int) -> bool {
    exists|k: int|
        0 <= k < rs.len() && (#[trigger] rs[k]).file_offset <= i < rs[k].file_offset
            + rs[k].new_bytes.len()
}

/// Whether byte `i` lies in the range that a patch after the `k`-th wrote.
pub open spec fn touched_after(rs: Seq<PatchResultView>, k: int, i: int) -> bool {
    exists|m: int|
        k < m < rs.len() && (#[trigger] rs[m]).file_offset <= i < rs[m].file_offset
            + rs[m].new_bytes.len()
}

/// Whether the bytes of every patch in `rs` are in place in `d`, except where
/// a later patch wrote over them.
pub open spec fn in_place(d: Seq<u8>, rs: Seq<PatchResultView>) -> bool {
    forall|k: int, j: int|
        #![trigger rs[k].new_bytes[j]]
        0 <= k < rs.len() && 0 <= j < rs[k].new_bytes.len() && !touched_after(
            rs,
            k,
            rs[k].file_offset + j,
        ) ==> d[rs[k].file_offset + j] == rs[k].new_bytes[j]
}

/// Whether every patch in `rs` lies within `d`.
pub open spec fn all_fit(d: Seq<u8>, rs: Seq<PatchResultView>) -> bool {
    forall|k: int|
        0 <= k < rs.len() ==> fits(d, (#[trigger] rs[k]).file_offset as int, rs[k].new_bytes.len() as int)
}

/// Whether the patch `r` is what the entry `e` asks for.
pub open spec fn from_entry(r: PatchResultView, e: EntryView) -> bool {
    &&& r.arch == e.arch
    &&& spec_parse_hex_u64(e.addr) == Some(r.va)
    &&& spec_hex_to_bytes(encode_utf8(e.asm_hex)) == Some(r.new_bytes)
    &&& r.old_bytes.len() == r.new_bytes.len()
}

/// What holds of every state a patch run from `d0` with entries `es` reaches.
pub open spec fn faithful(d0: Seq<u8>, es: Seq<EntryView>, st: PatchState) -> bool {
    &&& st.data.len() == d0.len()
    &&& restore(st.data, st.results) == d0
    &&& forall|i: int| 0 <= i < d0.len() && !touched(st.results, i) ==> st.data[i] == d0[i]
    &&& forall|k: int|
        0 <= k < st.results.len() ==> exists|j: int|
            0 <= j < es.len() && from_entry(#[trigger] st.results[k], es[j])
    &&& in_place(st.data, st.results)
    &&& all_fit(st.data, st.results)
}

proof fn lemma_write_back(d: Seq<u8>, off: int, p: Seq<u8>)
    requires
        0 <= off,
        fits(d, off, p.len() as int),
    ensures
        write_at(write_at(d, off, p), off, bytes_at(d, off, p.len() as int)) == d,
        write_at(d, off, p).len() == d.len(),
        bytes_at(d, off, p.len() as int).len() == p.len(),
        forall|i: int|
            0 <= i < d.len() && !(off <= i < off + p.len()) ==> #[trigger] write_at(d, off, p)[i]
                == d[i],
        forall|j: int|
            0 <= j < p.len() ==> off + j < d.len() && #[trigger] write_at(d, off, p)[off + j] == p[j],
{
    if p.len() > 0 {
        assert forall|j: int| 0 <= j < p.len() implies off + j < d.len() && #[trigger] write_at(
            d,
            off,
            p,
        )[off + j] == p[j] by {
            assert((d.subrange(0, off) + p)[off + j] == p[j]);
        }
        let d1 = write_at(d, off, p);
        assert(write_at(d1, off, bytes_at(d, off, p.len() as int)) =~= d);
        assert forall|i: int| 0 <= i < d.len() && !(off <= i < off + p.len()) implies #[trigger] write_at(d, off, p)[i]
            == d[i] by {
            if i < off {
                assert(d1[i] == d.subrange(0, off)[i]);
            } else {
                assert(d1[i] == d.subrange(off + p.len(), d.len() as int)[i - off - p.len()]);
            }
        }
    }
}

/// Writing one more patch keeps the earlier patches in place where it does not overlap them.
proof fn lemma_push_in_place(d: Seq<u8>, rs: Seq<PatchResultView>, r: PatchResultView)
    requires
        in_place(d, rs),
        all_fit(d, rs),
        fits(d, r.file_offset as int, r.new_bytes.len() as int),
    ensures
        in_place(write_at(d, r.file_offset as int, r.new_bytes), rs.push(r)),
{
    let off = r.file_offset as int;
    let p = r.new_bytes;
    let d1 = write_at(d, off, p);
    let rs1 = rs.push(r);
    let n = rs.len() as int;
    lemma_write_back(d, off, p);
    assert forall|k: int, j: int|
        #![trigger rs1[k].new_bytes[j]]
        0 <= k < rs1.len() && 0 <= j < rs1[k].new_bytes.len() && !touched_after(
            rs1,
            k,
            rs1[k].file_offset + j,
        ) implies d1[rs1[k].file_offset + j] == rs1[k].new_bytes[j] by {
        if k < n {
            let i = rs1[k].file_offset + j;
            assert(rs1[k] == rs[k]);
            assert(fits(d, rs[k].file_offset as int, rs[k].new_bytes.len() as int));
            assert(!(off <= i < off + p.len())) by {
                if off <= i < off + p.len() {
                    assert(rs1[n] == r);
                    assert(touched_after(rs1, k, i));
                }
            }
            assert(!touched_after(rs, k, i)) by {
                if touched_after(rs, k, i) {
                    let m = choose|m: int|
                        k < m < rs.len() && (#[trigger] rs[m]).file_offset <= i < rs[m].file_offset
                            + rs[m].new_bytes.len();
                    assert(rs1[m] == rs[m]);
                    assert(touched_after(rs1, k, i));
                }
            }
            assert(rs[k].new_bytes[j] == rs1[k].new_bytes[j]);
        } else {
            assert(rs1[k] == r);
        }
    }
}

proof fn lemma_step_faithful(
    d0: Seq<u8>,
    es: Seq<EntryView>,
    st: PatchState,
    cpu: u32,
    slice: u64,
    e: EntryView,
)
    requires
        faithful(d0, es, st),
        es.contains(e),
    ensures
        faithful(d0, es, step(st, cpu, slice, e)),
{
    let st1 = step(st, cpu, slice, e);
    if st1.results.len() != st.results.len() {
        let va = spec_parse_hex_u64(e.addr)->0;
        let p = spec_hex_to_bytes(encode_utf8(e.asm_hex))->0;
        let off = locate(st.data, slice, va, e.arch)->At_0;
        lemma_write_back(st.data, off as int, p);
        let r = st1.results.last();
        assert(st1.results.drop_last() =~= st.results);
        assert(restore(st1.data, st1.results) == restore(st.data, st.results));
        assert forall|i: int| 0 <= i < d0.len() && !touched(st1.results, i) implies st1.data[i]
            == d0[i] by {
            if touched(st.results, i) {
                let k = choose|k: int|
                    0 <= k < st.results.len() && (#[trigger] st.results[k]).file_offset <= i
                        < st.results[k].file_offset + st.results[k].new_bytes.len();
                assert(st1.results[k] == st.results[k]);
            }
            assert(!(off <= i < off + p.len())) by {
                assert(st1.results[st.results.len() as int] == r);
            }
        }
        lemma_push_in_place(st.data, st.results, r);
        assert forall|k: int| 0 <= k < st1.results.len() implies fits(
            st1.data,
            (#[trigger] st1.results[k]).file_offset as int,
            st1.results[k].new_bytes.len() as int,
        ) by {
            if k < st.results.len() {
                assert(st1.results[k] == st.results[k]);
            }
        }
        let j = choose|j: int| 0 <= j < es.len() && es[j] == e;
        assert forall|k: int| 0 <= k < st1.results.len() implies exists|j: int|
            0 <= j < es.len() && from_entry(#[trigger] st1.results[k], es[j]) by {
            if k < st.results.len() {
                assert(st1.results[k] == st.results[k]);
            } else {
                assert(from_entry(st1.results[k], es[j]));
            }
        }
    }
}

proof fn lemma_run_entries_faithful(
    d0: Seq<u8>,
    es: Seq<EntryView>,
    st: PatchState,
    cpu: u32,
    slice: u64,
    sub: Seq<EntryView>,
)
    requires
        faithful(d0, es, st),
        forall|j: int| 0 <= j < sub.len() ==> es.contains(#[trigger] sub[j]),
    ensures
        faithful(d0, es, run_entries(st, cpu, slice, sub)),
    decreases sub.len(),
{
    if sub.len() > 0 {
        let front = sub.drop_last();
        assert forall|j: int| 0 <= j < front.len() implies es.contains(#[trigger] front[j]) by {
            assert(front[j] == sub[j]);
        }
        lemma_run_entries_faithful(d0, es, st, cpu, slice, front);
        assert(es.contains(sub[sub.len() - 1]));
        lemma_step_faithful(d0, es, run_entries(st, cpu, slice, front), cpu, slice, sub.last());
    }
}

proof fn lemma_run_slices_faithful(
    d0: Seq<u8>,
    es: Seq<EntryView>,
    st: PatchState,
    table: Seq<(u32, u32)>,
)
    requires
        faithful(d0, es, st),
    ensures
        faithful(d0, es, run_slices(st, table, es)),
    decreases table.len(),
{
    if table.len() > 0 {
        lemma_run_slices_faithful(d0, es, st, table.drop_last());
        assert forall|j: int| 0 <= j < es.len() implies es.contains(#[trigger] es[j]) by {}
        lemma_run_entries_faithful(
            d0,
            es,
            run_slices(st, table.drop_last(), es),
            table.last().0,
            table.last().1 as u64,
            es,
        );
    }
}

/// Patching is a faithful, reversible edit of the binary, whatever comes of
/// it (success, an error part-way, or an abort): the binary keeps its length;
/// writing back the replaced bytes that each patch reports, last patch first,
/// gives back the binary as it was; every byte outside the patched ranges is
/// as it was; the new bytes of every patch are in place wherever no later
/// patch wrote over them; and every patch is one that some entry asks for: its
/// architecture, its address and its machine code, with as many replaced
/// bytes as new ones.
pub proof fn lemma_patch_is_reversible(d: Seq<u8>, es: Seq<EntryView>)
    ensures
        ({
            let st = spec_patch_binary(d, es);
            &&& st.data.len() == d.len()
            &&& restore(st.data, st.results) == d
            &&& forall|i: int| 0 <= i < d.len() && !touched(st.results, i) ==> st.data[i] == d[i]
            &&& in_place(st.data, st.results)
            &&& all_fit(st.data, st.results)
            &&& forall|k: int|
                0 <= k < st.results.len() ==> exists|j: int|
                    0 <= j < es.len() && from_entry(#[trigger] st.results[k], es[j])
        }),
{
    let init = initial(d);
    assert(faithful(d, es, init));
    if d.len() >= 4 {
        if be_u32(d, 0) == FAT_MAGIC || be_u32(d, 0) == FAT_CIGAM {
            let swapped = be_u32(d, 0) == FAT_CIGAM;
            if d.len() >= 8 {
                let nfat = fat_u32(d, 4, swapped);
                lemma_run_slices_faithful(d, es, init, fat_table(d, nfat as nat, swapped));
            }
        } else if le_u32(d, 0) == MH_MAGIC_64 && d.len() >= 8 {
            assert forall|j: int| 0 <= j < es.len() implies es.contains(#[trigger] es[j]) by {}
            lemma_run_entries_faithful(d, es, init, le_u32(d, 4) as u32, 0, es);
        }
    }
}


/// The file offset of load command `k` of the Mach-O slice at `slice`: the
/// commands follow the 32-byte header back to back, each as long as its own
/// `cmdsize` (its second word).
pub open spec fn command_offset(d: Seq<u8>, slice: int, k: nat) -> int
    decreases k,
{
    if k == 0 {
        slice + 32
    } else {
        command_offset(d, slice, (k - 1) as nat) + le_u32(
            d,
            command_offset(d, slice, (k - 1) as nat) + 4,
        )
    }
}

/// Whether the load command at `o` can be read and, where it is an
/// `LC_SEGMENT_64`, is whole and its address range does not hold `va`.
pub open spec fn command_passes(d: Seq<u8>, o: int, va: u64) -> bool {
    &&& o + 8 <= d.len()
    &&& le_u32(d, o) == LC_SEGMENT_64 ==> o + 48 <= d.len() && (va < le_u64(d, o + 24) || le_u64(
        d,
        o + 24,
    ) + le_u64(d, o + 32) <= va)
}

/// Whether the load command at `o` is a whole `LC_SEGMENT_64` whose address
/// range `[vmaddr, vmaddr + vmsize)` holds `va` and ends within `u64`.
pub open spec fn segment_holds(d: Seq<u8>, o: int, va: u64) -> bool {
    &&& o + 48 <= d.len()
    &&& le_u32(d, o) == LC_SEGMENT_64
    &&& le_u64(d, o + 24) <= va < le_u64(d, o + 24) + le_u64(d, o + 32)
    &&& le_u64(d, o + 24) + le_u64(d, o + 32) <= u64::MAX
}

proof fn lemma_walk_reaches(
    d: Seq<u8>,
    slice: int,
    n0: nat,
    va: u64,
    arch: Seq<char>,
    j: nat,
    k: nat,
)
    requires
        j <= k < n0,
        forall|m: nat| m < k ==> command_passes(d, #[trigger] command_offset(d, slice, m), va),
    ensures
        walk_commands(d, slice, slice + 32, n0, va, arch) == walk_commands(
            d,
            slice,
            command_offset(d, slice, j),
            (n0 - j) as nat,
            va,
            arch,
        ),
    decreases j,
{
    if j > 0 {
        let i = (j - 1) as nat;
        lemma_walk_reaches(d, slice, n0, va, arch, i, k);
        let o = command_offset(d, slice, i);
        assert(command_passes(d, o, va));
        assert(command_offset(d, slice, j) == o + le_u32(d, o + 4));
        assert((n0 - i) as nat > 0);
        assert(((n0 - i) as nat - 1) as nat == (n0 - j) as nat);
        assert(walk_commands(d, slice, o, (n0 - i) as nat, va, arch) == walk_commands(
            d,
            slice,
            o + le_u32(d, o + 4),
            (n0 - j) as nat,
            va,
            arch,
        ));
    }
}

/// The address of an entry is found by walking the slice's load commands back
/// to back, each by its own `cmdsize`: where command `k` (of the `ncmds` that
/// follow the header) is the first `LC_SEGMENT_64` whose address range holds
/// `va`, and every command before it is read and does not hold `va`, the file
/// offset found is `slice + fileoff + (va - vmaddr)` of command `k`.
pub proof fn lemma_locate_walks_by_cmdsize(
    d: Seq<u8>,
    slice: u64,
    va: u64,
    arch: Seq<char>,
    k: nat,
)
    requires
        slice + 20 <= d.len(),
        le_u32(d, slice as int) == MH_MAGIC_64,
        k < le_u32(d, slice + 16),
        forall|m: nat| m < k ==> command_passes(d, #[trigger] command_offset(d, slice as int, m), va),
        segment_holds(d, command_offset(d, slice as int, k), va),
        slice + le_u64(d, command_offset(d, slice as int, k) + 40) + (va - le_u64(
            d,
            command_offset(d, slice as int, k) + 24,
        )) <= u64::MAX,
    ensures
        locate(d, slice, va, arch) == Located::At(
            (slice + le_u64(d, command_offset(d, slice as int, k) + 40) + (va - le_u64(
                d,
                command_offset(d, slice as int, k) + 24,
            ))) as u64,
        ),
{
    let n0 = le_u32(d, slice + 16) as nat;
    lemma_walk_reaches(d, slice as int, n0, va, arch, k, k);
}

/// What a patch writes: its architecture, its address and its machine code.
pub open spec fn patch_key(r: PatchResultView) -> (Seq<char>, u64, Seq<u8>) {
    (r.arch, r.va, r.new_bytes)
}

/// What the entry `e` asks to write: its architecture, its address read as
/// radix-16 and its machine code decoded from hex.
pub open spec fn entry_key(e: EntryView) -> (Seq<char>, u64, Seq<u8>) {
    (e.arch, spec_parse_hex_u64(e.addr)->0, spec_hex_to_bytes(encode_utf8(e.asm_hex))->0)
}

/// What each of the patches `rs` writes, in order.
pub open spec fn patch_keys(rs: Seq<PatchResultView>) -> Seq<(Seq<char>, u64, Seq<u8>)> {
    rs.map_values(|r: PatchResultView| patch_key(r))
}

/// What the entries whose architecture is the CPU type `cpu` ask to write,
/// in entry order: one for each such entry, none for the others.
pub open spec fn matching_keys(es: Seq<EntryView>, cpu: u32) -> Seq<(Seq<char>, u64, Seq<u8>)>
    decreases es.len(),
{
    if es.len() == 0 {
        Seq::empty()
    } else if arch_cputype(es.last().arch) == Some(cpu) {
        matching_keys(es.drop_last(), cpu).push(entry_key(es.last()))
    } else {
        matching_keys(es.drop_last(), cpu)
    }
}

/// What the entries ask to write in the slices of `table`, slice by slice:
/// for each slice, the matching entries of its CPU type.
pub open spec fn slice_keys(table: Seq<(u32, u32)>, es: Seq<EntryView>) -> Seq<
    (Seq<char>, u64, Seq<u8>),
>
    decreases table.len(),
{
    if table.len() == 0 {
        Seq::empty()
    } else {
        slice_keys(table.drop_last(), es) + matching_keys(es, table.last().0)
    }
}

/// Whether `d` starts with the magic of a FAT binary (either byte order).
pub open spec fn is_fat(d: Seq<u8>) -> bool {
    d.len() >= 4 && (be_u32(d, 0) == FAT_MAGIC || be_u32(d, 0) == FAT_CIGAM)
}

/// What the entries ask to write in the binary `d`: for a FAT binary, in each
/// slice of its architecture table, slice by slice; for a thin one, in the
/// binary itself, whose CPU type is the word at offset 4.
pub open spec fn requested_keys(d: Seq<u8>, es: Seq<EntryView>) -> Seq<(Seq<char>, u64, Seq<u8>)> {
    if is_fat(d) {
        let swapped = be_u32(d, 0) == FAT_CIGAM;
        slice_keys(fat_table(d, fat_u32(d, 4, swapped) as nat, swapped), es)
    } else {
        matching_keys(es, le_u32(d, 4) as u32)
    }
}

proof fn lemma_step_keys(st: PatchState, cpu: u32, slice: u64, e: EntryView)
    requires
        step(st, cpu, slice, e).status is Running,
    ensures
        st.status is Running,
        patch_keys(step(st, cpu, slice, e).results) == patch_keys(st.results) + (if arch_cputype(
            e.arch,
        ) == Some(cpu) {
            seq![entry_key(e)]
        } else {
            Seq::empty()
        }),
{
    let st1 = step(st, cpu, slice, e);
    if arch_cputype(e.arch) == Some(cpu) {
        let r = st1.results.last();
        assert(st1.results == st.results.push(r));
        assert(patch_key(r) == entry_key(e));
        assert(patch_keys(st1.results) =~= patch_keys(st.results) + seq![entry_key(e)]);
    } else {
        assert(patch_keys(st1.results) =~= patch_keys(st.results) + Seq::empty());
    }
}

proof fn lemma_run_entries_keys(st: PatchState, cpu: u32, slice: u64, es: Seq<EntryView>)
    requires
        run_entries(st, cpu, slice, es).status is Running,
    ensures
        st.status is Running,
        patch_keys(run_entries(st, cpu, slice, es).results) == patch_keys(st.results)
            + matching_keys(es, cpu),
    decreases es.len(),
{
    if es.len() == 0 {
        assert(patch_keys(st.results) + Seq::empty() =~= patch_keys(st.results));
    } else {
        let front = es.drop_last();
        let mid = run_entries(st, cpu, slice, front);
        lemma_step_keys(mid, cpu, slice, es.last());
        lemma_run_entries_keys(st, cpu, slice, front);
        let a = patch_keys(st.results);
        let m = matching_keys(front, cpu);
        if arch_cputype(es.last().arch) == Some(cpu) {
            assert(a + m + seq![entry_key(es.last())] =~= a + m.push(entry_key(es.last())));
        } else {
            assert(a + m + Seq::empty() =~= a + m);
        }
    }
}

proof fn lemma_run_slices_keys(st: PatchState, table: Seq<(u32, u32)>, es: Seq<EntryView>)
    requires
        run_slices(st, table, es).status is Running,
    ensures
        st.status is Running,
        patch_keys(run_slices(st, table, es).results) == patch_keys(st.results) + slice_keys(
            table,
            es,
        ),
    decreases table.len(),
{
    if table.len() == 0 {
        assert(patch_keys(st.results) + Seq::empty() =~= patch_keys(st.results));
    } else {
        let front = table.drop_last();
        let mid = run_slices(st, front, es);
        lemma_run_entries_keys(mid, table.last().0, table.last().1 as u64, es);
        lemma_run_slices_keys(st, front, es);
        let a = patch_keys(st.results);
        assert(a + slice_keys(front, es) + matching_keys(es, table.last().0) =~= a + (slice_keys(
            front,
            es,
        ) + matching_keys(es, table.last().0)));
    }
}

/// Patching that succeeds applies every entry to each slice of its
/// architecture: its patches are exactly one per pair of a slice and an entry
/// whose architecture is the CPU type of that slice, slice by slice and in
/// entry order, each writing the entry's machine code at the entry's address
/// for the entry's architecture; so there are as many patches as such pairs.
/// A thin binary is one slice, of the CPU type in its header.
pub proof fn lemma_every_matching_entry_patched(d: Seq<u8>, es: Seq<EntryView>)
    ensures
        spec_patch_binary(d, es).status is Running ==> patch_keys(spec_patch_binary(d, es).results)
            == requested_keys(d, es),
        spec_patch_binary(d, es).status is Running ==> spec_patch_binary(d, es).results.len()
            == requested_keys(d, es).len(),
{
    let st = spec_patch_binary(d, es);
    if st.status is Running {
        let init = initial(d);
        assert(patch_keys(init.results) =~= Seq::empty());
        if is_fat(d) {
            let swapped = be_u32(d, 0) == FAT_CIGAM;
            let table = fat_table(d, fat_u32(d, 4, swapped) as nat, swapped);
            lemma_run_slices_keys(init, table, es);
            assert(Seq::<(Seq<char>, u64, Seq<u8>)>::empty() + slice_keys(table, es) =~= slice_keys(
                table,
                es,
            ));
        } else {
            lemma_run_entries_keys(init, le_u32(d, 4) as u32, 0, es);
            assert(Seq::<(Seq<char>, u64, Seq<u8>)>::empty() + matching_keys(
                es,
                le_u32(d, 4) as u32,
            ) =~= matching_keys(es, le_u32(d, 4) as u32));
        }
        assert(patch_keys(st.results).len() == st.results.len());
    }
}

/// Patching that succeeds has applied at least one patch: a binary for
/// which no entry matches is an error.
pub proof fn lemma_success_patches_something(d: Seq<u8>, es: Seq<EntryView>)
    ensures
        spec_patch_binary(d, es).status is Running ==> spec_patch_binary(d, es).results.len() > 0,
{
}

} // verus!
