//! Reading an ELF image's dynamic import table: the GOT entries of the
//! `JUMP_SLOT` relocations that bind a given symbol, as addresses in the
//! loaded image. Offsets computed from the file's fields wrap around the
//! address space as machine addresses do; reads outside the file fail.

use vstd::prelude::*;
use vstd::string::StringSliceAdditionalSpecFns;
use vstd::utf8::{encode_utf8, valid_utf8};

use crate::hooks::HookError;

verus! {

pub const EI_CLASS: usize = 4;
pub const ELFCLASS32: u8 = 1;
pub const ELFCLASS64: u8 = 2;
pub const ET_EXEC: u16 = 2;
pub const ET_DYN: u16 = 3;
pub const PT_LOAD: u32 = 1;
pub const PT_DYNAMIC: u32 = 2;
pub const DT_NULL: i64 = 0;
pub const DT_PLTRELSZ: i64 = 2;
pub const DT_STRTAB: i64 = 5;
pub const DT_SYMTAB: i64 = 6;
pub const DT_RELA: i64 = 7;
pub const DT_REL: i64 = 17;
pub const DT_PLTREL: i64 = 20;
pub const DT_JMPREL: i64 = 23;
pub const R_ARM_JUMP_SLOT: u32 = 22;
pub const R_X86_64_JUMP_SLOT: u32 = 7;
pub const R_AARCH64_JUMP_SLOT: u32 = 1026;

/// The two ELF layouts.
#[derive(Debug, Clone, Copy, PartialEq, Eq, Structural)]
pub enum Class {
    Elf32,
    Elf64,
}

pub open spec fn le16(b: Seq<u8>, o: int) -> u16 {
    (b[o] + 256 * b[o + 1]) as u16
}

pub open spec fn le32(b: Seq<u8>, o: int) -> u32 {
    (b[o] + 256 * b[o + 1] + 65536 * b[o + 2] + 16777216 * b[o + 3]) as u32
}

pub open spec fn le64(b: Seq<u8>, o: int) -> u64 {
    (le32(b, o) + 4294967296 * le32(b, o + 4)) as u64
}

/// A little-endian `u16` at `off`, if the file holds it.
pub open spec fn rd16(b: Seq<u8>, off: usize) -> Result<u16, HookError> {
    if off + 2 <= b.len() { Ok(le16(b, off as int)) } else { Err(HookError::InvalidArgument) }
}

pub open spec fn rd32(b: Seq<u8>, off: usize) -> Result<u32, HookError> {
    if off + 4 <= b.len() { Ok(le32(b, off as int)) } else { Err(HookError::InvalidArgument) }
}

pub open spec fn rd64(b: Seq<u8>, off: usize) -> Result<u64, HookError> {
    if off + 8 <= b.len() { Ok(le64(b, off as int)) } else { Err(HookError::InvalidArgument) }
}

/// A word of the class at `off`: 4 bytes for ELF32, 8 for ELF64.
pub open spec fn rd_word(b: Seq<u8>, c: Class, off: usize) -> Result<u64, HookError> {
    match c {
        Class::Elf32 => match rd32(b, off) {
            Ok(v) => Ok(v as u64),
            Err(e) => Err(e),
        },
        Class::Elf64 => rd64(b, off),
    }
}

pub fn read_u16(bytes: &[u8], off: usize) -> (r: Result<u16, HookError>)
    ensures
        r == rd16(bytes@, off),
{
    if off > bytes.len() || bytes.len() - off < 2 {
        return Err(HookError::InvalidArgument);
    }
    Ok(bytes[off] as u16 + 256 * (bytes[off + 1] as u16))
}

pub fn read_u32(bytes: &[u8], off: usize) -> (r: Result<u32, HookError>)
    ensures
        r == rd32(bytes@, off),
{
    if off > bytes.len() || bytes.len() - off < 4 {
        return Err(HookError::InvalidArgument);
    }
    Ok(bytes[off] as u32 + 256 * (bytes[off + 1] as u32) + 65536 * (bytes[off + 2] as u32) + 16777216 * (bytes[off
        + 3] as u32))
}

pub fn read_u64(bytes: &[u8], off: usize) -> (r: Result<u64, HookError>)
    ensures
        r == rd64(bytes@, off),
{
    if off > bytes.len() || bytes.len() - off < 8 {
        return Err(HookError::InvalidArgument);
    }
    let lo = match read_u32(bytes, off) {
        Ok(v) => v,
        Err(e) => return Err(e),
    };
    let hi = match read_u32(bytes, off + 4) {
        Ok(v) => v,
        Err(e) => return Err(e),
    };
    Ok(lo as u64 + 4294967296 * (hi as u64))
}

pub fn read_word(bytes: &[u8], c: Class, off: usize) -> (r: Result<u64, HookError>)
    ensures
        r == rd_word(bytes@, c, off),
{
    match c {
        Class::Elf32 => match read_u32(bytes, off) {
            Ok(v) => Ok(v as u64),
            Err(e) => Err(e),
        },
        Class::Elf64 => read_u64(bytes, off),
    }
}

/// The first index at or after `i` holding a zero byte.
pub open spec fn nul_from(b: Seq<u8>, i: int) -> Option<int>
    decreases b.len() - i,
{
    if i < 0 || i >= b.len() {
        None
    } else if b[i] == 0 {
        Some(i)
    } else {
        nul_from(b, i + 1)
    }
}

pub proof fn lemma_nul_from(b: Seq<u8>, i: int)
    ensures
        nul_from(b, i) matches Some(e) ==> i <= e < b.len(),
    decreases b.len() - i,
{
    if 0 <= i < b.len() && b[i] != 0 {
        lemma_nul_from(b, i + 1);
    }
}

/// The NUL-terminated UTF-8 string at `off` (without the NUL).
pub open spec fn cstr_at(b: Seq<u8>, off: usize) -> Result<Seq<u8>, HookError> {
    if off >= b.len() {
        Err(HookError::InvalidArgument)
    } else {
        match nul_from(b, off as int) {
            None => Err(HookError::InvalidArgument),
            Some(e) => if valid_utf8(b.subrange(off as int, e)) {
                Ok(b.subrange(off as int, e))
            } else {
                Err(HookError::InvalidArgument)
            },
        }
    }
}

/// Whether `bytes` is valid UTF-8 (`std::str::from_utf8` succeeds exactly
/// then, as its documentation states).
#[verifier::external_body]
fn is_utf8(bytes: &[u8]) -> (b: bool)
    ensures
        b == valid_utf8(bytes@),
{
    std::str::from_utf8(bytes).is_ok()
}

/// The NUL-terminated string at `off`.
pub fn read_cstr(bytes: &[u8], off: usize) -> (r: Result<Vec<u8>, HookError>)
    ensures
        match cstr_at(bytes@, off) {
            Ok(s) => r matches Ok(v) && v@ == s,
            Err(e) => r == Err::<Vec<u8>, HookError>(e),
        },
{
    if off >= bytes.len() {
        return Err(HookError::InvalidArgument);
    }
    let mut e = off;
    while e < bytes.len() && bytes[e] != 0
        invariant
            off <= e <= bytes@.len(),
            nul_from(bytes@, off as int) == nul_from(bytes@, e as int),
        decreases bytes@.len() - e,
    {
        e += 1;
    }
    if e == bytes.len() {
        return Err(HookError::InvalidArgument);
    }
    let mut v: Vec<u8> = Vec::new();
    let mut k = off;
    while k < e
        invariant
            off <= k <= e < bytes@.len(),
            v@ == bytes@.subrange(off as int, k as int),
        decreases e - k,
    {
        v.push(bytes[k]);
        k += 1;
        assert(v@ =~= bytes@.subrange(off as int, k as int));
    }
    if !is_utf8(v.as_slice()) {
        return Err(HookError::InvalidArgument);
    }
    Ok(v)
}

/// Offsets of `p_offset`, `p_vaddr` and `p_filesz` in a program header.
pub open spec fn ph_fields(c: Class) -> (usize, usize, usize) {
    match c {
        Class::Elf32 => (4, 8, 16),
        Class::Elf64 => (8, 16, 32),
    }
}

fn ph_field_offsets(c: Class) -> (r: (usize, usize, usize))
    ensures
        r == ph_fields(c),
{
    match c {
        Class::Elf32 => (4, 8, 16),
        Class::Elf64 => (8, 16, 32),
    }
}

/// A program header's (type, offset, vaddr, filesz) at `off`.
pub open spec fn phdr_at(b: Seq<u8>, c: Class, off: usize) -> Result<(u32, usize, usize, usize), HookError> {
    let (fo, fv, fs) = ph_fields(c);
    match rd32(b, off) {
        Err(e) => Err(e),
        Ok(t) => match rd_word(b, c, off.wrapping_add(fo)) {
            Err(e) => Err(e),
            Ok(po) => match rd_word(b, c, off.wrapping_add(fv)) {
                Err(e) => Err(e),
                Ok(pv) => match rd_word(b, c, off.wrapping_add(fs)) {
                    Err(e) => Err(e),
                    Ok(pf) => Ok((t, po as usize, pv as usize, pf as usize)),
                },
            },
        },
    }
}

fn read_phdr(bytes: &[u8], c: Class, off: usize) -> (r: Result<(u32, usize, usize, usize), HookError>)
    ensures
        r == phdr_at(bytes@, c, off),
{
    let (fo, fv, fs) = ph_field_offsets(c);
    let t = match read_u32(bytes, off) {
        Ok(v) => v,
        Err(e) => return Err(e),
    };
    let po = match read_word(bytes, c, off.wrapping_add(fo)) {
        Ok(v) => v,
        Err(e) => return Err(e),
    };
    let pv = match read_word(bytes, c, off.wrapping_add(fv)) {
        Ok(v) => v,
        Err(e) => return Err(e),
    };
    let pf = match read_word(bytes, c, off.wrapping_add(fs)) {
        Ok(v) => v,
        Err(e) => return Err(e),
    };
    Ok((t, po as usize, pv as usize, pf as usize))
}

pub open spec fn min_usize(m: Option<usize>, v: usize) -> usize {
    match m {
        Some(x) => if x <= v { x } else { v },
        None => v,
    }
}

/// The program headers from `i` on: the lowest `PT_LOAD` address and the
/// last `PT_DYNAMIC` (offset, size), or the first failed read.
pub open spec fn ph_scan(
    b: Seq<u8>,
    c: Class,
    phoff: usize,
    phentsize: usize,
    phnum: usize,
    i: int,
    min: Option<usize>,
    dynm: Option<(usize, usize)>,
) -> Result<(Option<usize>, Option<(usize, usize)>), HookError>
    decreases phnum - i,
{
    if i < 0 || i >= phnum {
        Ok((min, dynm))
    } else {
        match phdr_at(b, c, phoff.wrapping_add((i * phentsize) as usize)) {
            Err(e) => Err(e),
            Ok((t, po, pv, pf)) => if t == PT_LOAD {
                ph_scan(b, c, phoff, phentsize, phnum, i + 1, Some(min_usize(min, pv)), dynm)
            } else if t == PT_DYNAMIC {
                ph_scan(b, c, phoff, phentsize, phnum, i + 1, min, Some((po, pf)))
            } else {
                ph_scan(b, c, phoff, phentsize, phnum, i + 1, min, dynm)
            },
        }
    }
}

/// The load bias (where the lowest segment was mapped, less its address)
/// and the dynamic table's file offset and size.
pub open spec fn load_bias_spec(b: Seq<u8>, c: Class, phoff: usize, phentsize: usize, phnum: usize, base: usize) -> Result<(usize, usize, usize), HookError> {
    match ph_scan(b, c, phoff, phentsize, phnum, 0, None, None) {
        Err(e) => Err(e),
        Ok((min, dynm)) => match min {
            None => Err(HookError::InvalidArgument),
            Some(mv) => match dynm {
                None => Err(HookError::System),
                Some((o, sz)) => Ok((base.wrapping_sub(mv), o, sz)),
            },
        },
    }
}

/// The address of program header `j` when it is a `PT_LOAD` segment.
pub open spec fn load_vaddr_at(b: Seq<u8>, c: Class, phoff: usize, phentsize: usize, j: int) -> Option<usize> {
    match phdr_at(b, c, phoff.wrapping_add((j * phentsize) as usize)) {
        Ok((t, _, pv, _)) => if t == PT_LOAD { Some(pv) } else { None },
        Err(_) => None,
    }
}

proof fn lemma_ph_scan_min(
    b: Seq<u8>,
    c: Class,
    phoff: usize,
    phentsize: usize,
    phnum: usize,
    i: int,
    min: Option<usize>,
    dynm: Option<(usize, usize)>,
)
    requires
        0 <= i,
        ph_scan(b, c, phoff, phentsize, phnum, i, min, dynm) is Ok,
    ensures
        ({
            let m2 = (ph_scan(b, c, phoff, phentsize, phnum, i, min, dynm)->Ok_0).0;
            &&& min is Some ==> m2 is Some && m2->0 <= min->0
            &&& m2 is Some ==> (m2 == min || exists|j: int|
                i <= j < phnum && #[trigger] load_vaddr_at(b, c, phoff, phentsize, j) == m2)
            &&& forall|j: int| i <= j < phnum && (#[trigger] load_vaddr_at(b, c, phoff, phentsize, j)) is Some
                ==> m2 is Some && m2->0 <= load_vaddr_at(b, c, phoff, phentsize, j)->0
        }),
    decreases phnum - i,
{
    if i < phnum {
        match phdr_at(b, c, phoff.wrapping_add((i * phentsize) as usize)) {
            Err(_) => {},
            Ok((t, po, pv, pf)) => {
                if t == PT_LOAD {
                    let nm = Some(min_usize(min, pv));
                    lemma_ph_scan_min(b, c, phoff, phentsize, phnum, i + 1, nm, dynm);
                    assert(load_vaddr_at(b, c, phoff, phentsize, i) == Some(pv));
                } else if t == PT_DYNAMIC {
                    lemma_ph_scan_min(b, c, phoff, phentsize, phnum, i + 1, min, Some((po, pf)));
                    assert(load_vaddr_at(b, c, phoff, phentsize, i) is None);
                } else {
                    lemma_ph_scan_min(b, c, phoff, phentsize, phnum, i + 1, min, dynm);
                    assert(load_vaddr_at(b, c, phoff, phentsize, i) is None);
                }
            },
        }
    }
}

/// The load bias is where the image was mapped less the lowest `PT_LOAD`
/// address: the returned address `mv` belongs to a `PT_LOAD` header, no
/// `PT_LOAD` header lies below it, and the bias is `base - mv` (wrapping).
pub proof fn law_load_bias_from_lowest_segment(
    b: Seq<u8>,
    c: Class,
    phoff: usize,
    phentsize: usize,
    phnum: usize,
    base: usize,
) -> (mv: usize)
    requires
        load_bias_spec(b, c, phoff, phentsize, phnum, base) is Ok,
    ensures
        (load_bias_spec(b, c, phoff, phentsize, phnum, base)->Ok_0).0 == base.wrapping_sub(mv),
        exists|j: int| 0 <= j < phnum && #[trigger] load_vaddr_at(b, c, phoff, phentsize, j) == Some(mv),
        forall|j: int| 0 <= j < phnum && (#[trigger] load_vaddr_at(b, c, phoff, phentsize, j)) is Some
            ==> mv <= load_vaddr_at(b, c, phoff, phentsize, j)->0,
{
    lemma_ph_scan_min(b, c, phoff, phentsize, phnum, 0, None, None);
    (ph_scan(b, c, phoff, phentsize, phnum, 0, None, None)->Ok_0).0->0
}

pub fn load_bias_and_dynamic(bytes: &[u8], c: Class, phoff: usize, phentsize: usize, phnum: usize, base: usize) -> (r: Result<(usize, usize, usize), HookError>)
    requires
        phentsize < 65536,
        phnum < 65536,
    ensures
        r == load_bias_spec(bytes@, c, phoff, phentsize, phnum, base),
{
    let mut min: Option<usize> = None;
    let mut dynm: Option<(usize, usize)> = None;
    let mut i: usize = 0;
    while i < phnum
        invariant
            i <= phnum < 65536,
            phentsize < 65536,
            ph_scan(bytes@, c, phoff, phentsize, phnum, 0, None, None) == ph_scan(bytes@, c, phoff, phentsize, phnum, i as int, min, dynm),
        decreases phnum - i,
    {
        assert(i * phentsize < 65536 * 65536) by (nonlinear_arith)
            requires i < 65536, phentsize < 65536;
        let off = phoff.wrapping_add(i * phentsize);
        match read_phdr(bytes, c, off) {
            Err(e) => return Err(e),
            Ok((t, po, pv, pf)) => {
                if t == PT_LOAD {
                    min = Some(match min {
                        Some(x) => if x <= pv { x } else { pv },
                        None => pv,
                    });
                } else if t == PT_DYNAMIC {
                    dynm = Some((po, pf));
                }
            },
        }
        i += 1;
    }
    match min {
        None => Err(HookError::InvalidArgument),
        Some(mv) => match dynm {
            None => Err(HookError::System),
            Some((o, sz)) => Ok((base.wrapping_sub(mv), o, sz)),
        },
    }
}

pub open spec fn dyn_entry_size(c: Class) -> usize {
    match c {
        Class::Elf32 => 8,
        Class::Elf64 => 16,
    }
}

/// A dynamic entry's tag, sign-extended from the class's word.
pub open spec fn dyn_tag_value(c: Class, t: u64) -> i64 {
    match c {
        Class::Elf32 => (t as u32) as i32 as i64,
        Class::Elf64 => t as i64,
    }
}

/// The dynamic entries from `cursor` on, up to `DT_NULL`, the end of the
/// table, or the end of the file.
pub open spec fn dyn_scan(b: Seq<u8>, c: Class, cursor: usize, end: usize, acc: Seq<(i64, u64)>) -> Result<Seq<(i64, u64)>, HookError>
    decreases b.len() - cursor,
    when b.len() <= usize::MAX
{
    let esz = dyn_entry_size(c);
    let half = (esz / 2) as usize;
    if !(cursor.wrapping_add(esz) <= end && cursor.wrapping_add(esz) <= b.len()) {
        Ok(acc)
    } else {
        match rd_word(b, c, cursor) {
            Err(e) => Err(e),
            Ok(t) => match rd_word(b, c, cursor.wrapping_add(half)) {
                Err(e) => Err(e),
                Ok(v) => if dyn_tag_value(c, t) == DT_NULL {
                    Ok(acc)
                } else {
                    dyn_scan(b, c, cursor.wrapping_add(esz), end, acc.push((dyn_tag_value(c, t), v)))
                },
            },
        }
    }
}

/// The dynamic table at `off` of `size` bytes.
pub open spec fn parse_dynamic_spec(b: Seq<u8>, c: Class, off: usize, size: usize) -> Result<Seq<(i64, u64)>, HookError> {
    if off + size > usize::MAX {
        Err(HookError::InvalidArgument)
    } else {
        dyn_scan(b, c, off, (off + size) as usize, Seq::empty())
    }
}

pub fn parse_dynamic(bytes: &[u8], c: Class, off: usize, size: usize) -> (r: Result<Vec<(i64, u64)>, HookError>)
    ensures
        match parse_dynamic_spec(bytes@, c, off, size) {
            Ok(s) => r matches Ok(v) && v@ == s,
            Err(e) => r == Err::<Vec<(i64, u64)>, HookError>(e),
        },
{
    let end = match off.checked_add(size) {
        Some(e) => e,
        None => return Err(HookError::InvalidArgument),
    };
    let esz: usize = match c {
        Class::Elf32 => 8,
        Class::Elf64 => 16,
    };
    let half: usize = esz / 2;
    let mut out: Vec<(i64, u64)> = Vec::new();
    let mut cursor = off;
    let n = bytes.len();
    loop
        invariant
            n == bytes@.len(),
            esz == dyn_entry_size(c),
            half == esz / 2,
            end == off + size,
            parse_dynamic_spec(bytes@, c, off, size) == dyn_scan(bytes@, c, cursor, end, out@),
        decreases n - cursor,
    {
        let next = cursor.wrapping_add(esz);
        if !(next <= end && next <= n) {
            return Ok(out);
        }
        let t = match read_word(bytes, c, cursor) {
            Ok(v) => v,
            Err(e) => return Err(e),
        };
        let v = match read_word(bytes, c, cursor.wrapping_add(half)) {
            Ok(v) => v,
            Err(e) => return Err(e),
        };
        let tag: i64 = match c {
            Class::Elf32 => (t as u32) as i32 as i64,
            Class::Elf64 => t as i64,
        };
        if tag == DT_NULL {
            return Ok(out);
        }
        out.push((tag, v));
        assert(cursor + esz <= n);
        cursor = next;
    }
}

/// The value of the first entry with `tag`.
pub open spec fn dyn_tag_spec(es: Seq<(i64, u64)>, tag: i64) -> Option<u64>
    decreases es.len(),
{
    if es.len() == 0 {
        None
    } else if es[0].0 == tag {
        Some(es[0].1)
    } else {
        dyn_tag_spec(es.drop_first(), tag)
    }
}

pub fn dyn_tag(entries: &[(i64, u64)], tag: i64) -> (r: Option<u64>)
    ensures
        r == dyn_tag_spec(entries@, tag),
{
    let mut i: usize = 0;
    assert(entries@.subrange(0, entries@.len() as int) =~= entries@);
    while i < entries.len()
        invariant
            i <= entries@.len(),
            dyn_tag_spec(entries@, tag) == dyn_tag_spec(entries@.subrange(i as int, entries@.len() as int), tag),
        decreases entries@.len() - i,
    {
        let ghost rest = entries@.subrange(i as int, entries@.len() as int);
        assert(rest[0] == entries@[i as int]);
        if entries[i].0 == tag {
            return Some(entries[i].1);
        }
        assert(rest.drop_first() =~= entries@.subrange(i + 1, entries@.len() as int));
        i += 1;
    }
    None
}

/// The file offset of the loaded address `vaddr`, through the first
/// `PT_LOAD` segment from `i` on whose file image covers it.
pub open spec fn v2o(b: Seq<u8>, c: Class, phoff: usize, phentsize: usize, phnum: usize, vaddr: usize, i: int) -> Result<usize, HookError>
    decreases phnum - i,
{
    if i < 0 || i >= phnum {
        Err(HookError::System)
    } else {
        let off = phoff.wrapping_add((i * phentsize) as usize);
        match rd32(b, off) {
            Err(e) => Err(e),
            Ok(t) => if t != PT_LOAD {
                v2o(b, c, phoff, phentsize, phnum, vaddr, i + 1)
            } else {
                match phdr_at(b, c, off) {
                    Err(e) => Err(e),
                    Ok((_, po, pv, pf)) => if vaddr >= pv && vaddr < pv.wrapping_add(pf) {
                        Ok(po.wrapping_add((vaddr - pv) as usize))
                    } else {
                        v2o(b, c, phoff, phentsize, phnum, vaddr, i + 1)
                    },
                }
            },
        }
    }
}

pub fn vaddr_to_offset(bytes: &[u8], c: Class, phoff: usize, phentsize: usize, phnum: usize, vaddr: usize) -> (r: Result<usize, HookError>)
    requires
        phentsize < 65536,
        phnum < 65536,
    ensures
        r == v2o(bytes@, c, phoff, phentsize, phnum, vaddr, 0),
{
    let mut i: usize = 0;
    while i < phnum
        invariant
            i <= phnum < 65536,
            phentsize < 65536,
            v2o(bytes@, c, phoff, phentsize, phnum, vaddr, 0) == v2o(bytes@, c, phoff, phentsize, phnum, vaddr, i as int),
        decreases phnum - i,
    {
        assert(i * phentsize < 65536 * 65536) by (nonlinear_arith)
            requires i < 65536, phentsize < 65536;
        let off = phoff.wrapping_add(i * phentsize);
        let t = match read_u32(bytes, off) {
            Ok(v) => v,
            Err(e) => return Err(e),
        };
        if t == PT_LOAD {
            match read_phdr(bytes, c, off) {
                Err(e) => return Err(e),
                Ok((_, po, pv, pf)) => {
                    if vaddr >= pv && vaddr < pv.wrapping_add(pf) {
                        return Ok(po.wrapping_add(vaddr - pv));
                    }
                },
            }
        }
        i += 1;
    }
    Err(HookError::System)
}

pub open spec fn sym_size(c: Class) -> usize {
    match c {
        Class::Elf32 => 16,
        Class::Elf64 => 24,
    }
}

/// The name of symbol `index` of the symbol table at `symtab_off`, from the
/// string table at `strtab_off`.
pub open spec fn symbol_name_spec(b: Seq<u8>, c: Class, symtab_off: usize, strtab_off: usize, index: usize) -> Result<Seq<u8>, HookError> {
    match rd32(b, symtab_off.wrapping_add(index.wrapping_mul(sym_size(c)))) {
        Err(e) => Err(e),
        Ok(st_name) => cstr_at(b, strtab_off.wrapping_add(st_name as usize)),
    }
}

pub fn symbol_name(bytes: &[u8], c: Class, symtab_off: usize, strtab_off: usize, index: usize) -> (r: Result<Vec<u8>, HookError>)
    ensures
        match symbol_name_spec(bytes@, c, symtab_off, strtab_off, index) {
            Ok(s) => r matches Ok(v) && v@ == s,
            Err(e) => r == Err::<Vec<u8>, HookError>(e),
        },
{
    let size: usize = match c {
        Class::Elf32 => 16,
        Class::Elf64 => 24,
    };
    let st_name = match read_u32(bytes, symtab_off.wrapping_add(index.wrapping_mul(size))) {
        Ok(v) => v,
        Err(e) => return Err(e),
    };
    read_cstr(bytes, strtab_off.wrapping_add(st_name as usize))
}

/// The size of a relocation entry: with addend (`DT_RELA`) or without.
pub open spec fn rel_entry_size(c: Class, kind: i64) -> usize {
    match c {
        Class::Elf32 => if kind == DT_RELA { 12 } else { 8 },
        Class::Elf64 => if kind == DT_RELA { 24 } else { 16 },
    }
}

pub open spec fn word_size(c: Class) -> usize {
    match c {
        Class::Elf32 => 4,
        Class::Elf64 => 8,
    }
}

/// A relocation's type and symbol index, from its `r_info`.
pub open spec fn rel_info(c: Class, info: u64) -> (u32, usize) {
    match c {
        Class::Elf32 => ((info % 256) as u32, (info / 256) as usize),
        Class::Elf64 => ((info % 4294967296) as u32, (info / 4294967296) as usize),
    }
}

/// Whether a relocation type is a PLT jump slot for the class.
pub open spec fn is_jump_slot(c: Class, t: u32) -> bool {
    match c {
        Class::Elf32 => t == R_ARM_JUMP_SLOT,
        Class::Elf64 => t == R_X86_64_JUMP_SLOT || t == R_AARCH64_JUMP_SLOT,
    }
}

/// Relocation entry `i`: the GOT slot address when it is a jump slot
/// binding `sym`, nothing for another relocation, or the failed read.
#[verifier::opaque]
pub open spec fn slot_step(
    b: Seq<u8>,
    c: Class,
    rel_off: usize,
    ent: usize,
    symtab_off: usize,
    strtab_off: usize,
    bias: usize,
    sym: Seq<u8>,
    i: int,
) -> Result<Option<usize>, HookError> {
    let off = rel_off.wrapping_add((i * ent) as usize);
    match rd_word(b, c, off) {
        Err(e) => Err(e),
        Ok(ro) => match rd_word(b, c, off.wrapping_add(word_size(c))) {
            Err(e) => Err(e),
            Ok(info) => {
                let (t, si) = rel_info(c, info);
                if !is_jump_slot(c, t) {
                    Ok(None)
                } else {
                    match symbol_name_spec(b, c, symtab_off, strtab_off, si) {
                        Err(e) => Err(e),
                        Ok(name) => Ok(if name == sym { Some(bias.wrapping_add(ro as usize)) } else { None }),
                    }
                }
            },
        },
    }
}

/// The GOT slot addresses of the jump-slot relocations from entry `i` on
/// that bind `sym`, after those in `acc`; or the first failed read.
pub open spec fn slots_from(
    b: Seq<u8>,
    c: Class,
    rel_off: usize,
    ent: usize,
    count: usize,
    symtab_off: usize,
    strtab_off: usize,
    bias: usize,
    sym: Seq<u8>,
    i: int,
    acc: Seq<usize>,
) -> Result<Seq<usize>, HookError>
    decreases count - i,
{
    if i < 0 || i >= count {
        Ok(acc)
    } else {
        match slot_step(b, c, rel_off, ent, symtab_off, strtab_off, bias, sym, i) {
            Err(e) => Err(e),
            Ok(None) => slots_from(b, c, rel_off, ent, count, symtab_off, strtab_off, bias, sym, i + 1, acc),
            Ok(Some(a)) => slots_from(b, c, rel_off, ent, count, symtab_off, strtab_off, bias, sym, i + 1, acc.push(a)),
        }
    }
}

fn bytes_equal(a: &[u8], b: &[u8]) -> (r: bool)
    ensures
        r == (a@ == b@),
{
    if a.len() != b.len() {
        return false;
    }
    let mut i: usize = 0;
    while i < a.len()
        invariant
            a@.len() == b@.len(),
            i <= a@.len(),
            forall|k: int| 0 <= k < i ==> a@[k] == b@[k],
        decreases a@.len() - i,
    {
        if a[i] != b[i] {
            return false;
        }
        i += 1;
    }
    assert(a@ =~= b@);
    true
}

fn split_info(c: Class, info: u64) -> (r: (u32, usize))
    ensures
        r == rel_info(c, info),
{
    match c {
        Class::Elf32 => {
            let t = (info & 0xff) as u32;
            let si = (info >> 8) as usize;
            assert(info & 0xff == info % 256) by (bit_vector);
            assert(info >> 8 == info / 256) by (bit_vector);
            (t, si)
        },
        Class::Elf64 => {
            let t = (info & 0xffff_ffff) as u32;
            let si = (info >> 32) as usize;
            assert(info & 0xffff_ffff == info % 4294967296) by (bit_vector);
            assert(info >> 32 == info / 4294967296) by (bit_vector);
            (t, si)
        },
    }
}

fn relocation_slot(
    bytes: &[u8],
    c: Class,
    rel_off: usize,
    ent: usize,
    symtab_off: usize,
    strtab_off: usize,
    load_bias: usize,
    sym: &[u8],
    i: usize,
) -> (r: Result<Option<usize>, HookError>)
    requires
        i * ent <= usize::MAX,
    ensures
        r == slot_step(bytes@, c, rel_off, ent, symtab_off, strtab_off, load_bias, sym@, i as int),
{
    reveal(slot_step);
    let word: usize = match c {
        Class::Elf32 => 4,
        Class::Elf64 => 8,
    };
    let off = rel_off.wrapping_add(i * ent);
    let ro = match read_word(bytes, c, off) {
        Ok(v) => v,
        Err(e) => return Err(e),
    };
    let info = match read_word(bytes, c, off.wrapping_add(word)) {
        Ok(v) => v,
        Err(e) => return Err(e),
    };
    let (t, si) = split_info(c, info);
    let jump = match c {
        Class::Elf32 => t == R_ARM_JUMP_SLOT,
        Class::Elf64 => t == R_X86_64_JUMP_SLOT || t == R_AARCH64_JUMP_SLOT,
    };
    if !jump {
        return Ok(None);
    }
    let name = match symbol_name(bytes, c, symtab_off, strtab_off, si) {
        Ok(n) => n,
        Err(e) => return Err(e),
    };
    if bytes_equal(name.as_slice(), sym) {
        Ok(Some(load_bias.wrapping_add(ro as usize)))
    } else {
        Ok(None)
    }
}

/// Appends the GOT slot addresses of `sym`'s jump slots among the
/// relocations at `rel_off` (`rel_size` bytes of entries of the given kind).
pub fn collect_slots(
    bytes: &[u8],
    c: Class,
    rel_off: usize,
    rel_size: usize,
    rel_kind: i64,
    symtab_off: usize,
    strtab_off: usize,
    load_bias: usize,
    sym: &[u8],
    out: &mut Vec<usize>,
) -> (r: Result<(), HookError>)
    ensures
        ({
            let ent = rel_entry_size(c, rel_kind);
            match slots_from(bytes@, c, rel_off, ent, (rel_size / ent) as usize, symtab_off, strtab_off, load_bias, sym@, 0, old(out)@) {
                Ok(s) => r is Ok && final(out)@ == s,
                Err(e) => r == Err::<(), HookError>(e),
            }
        }),
{
    let ent: usize = match c {
        Class::Elf32 => if rel_kind == DT_RELA { 12 } else { 8 },
        Class::Elf64 => if rel_kind == DT_RELA { 24 } else { 16 },
    };
    let count = rel_size / ent;
    let ghost start = out@;
    assert(start == old(out)@);
    let mut i: usize = 0;
    while i < count
        invariant
            i <= count == rel_size / ent,
            start == old(out)@,
            ent == rel_entry_size(c, rel_kind),
            ent >= 8,
            slots_from(bytes@, c, rel_off, ent, count, symtab_off, strtab_off, load_bias, sym@, 0, start)
                == slots_from(bytes@, c, rel_off, ent, count, symtab_off, strtab_off, load_bias, sym@, i as int, out@),
        decreases count - i,
    {
        assert(i * ent <= rel_size) by (nonlinear_arith)
            requires i < count, count == rel_size / ent, ent > 0;
        match relocation_slot(bytes, c, rel_off, ent, symtab_off, strtab_off, load_bias, sym, i) {
            Err(e) => {
                assert(slots_from(bytes@, c, rel_off, ent, count, symtab_off, strtab_off, load_bias, sym@, i as int, out@)
                    == Err::<Seq<usize>, HookError>(e));
                return Err(e);
            },
            Ok(Some(a)) => out.push(a),
            Ok(None) => {},
        }
        i += 1;
    }
    Ok(())
}

/// The header fields (program header offset, entry size, count).
pub open spec fn header_at(b: Seq<u8>, c: Class) -> Result<(usize, usize, usize), HookError> {
    let (o_phoff, o_phentsize, o_phnum): (usize, usize, usize) = match c {
        Class::Elf32 => (28, 42, 44),
        Class::Elf64 => (32, 54, 56),
    };
    match rd_word(b, c, o_phoff) {
        Err(e) => Err(e),
        Ok(phoff) => match rd16(b, o_phentsize) {
            Err(e) => Err(e),
            Ok(pes) => match rd16(b, o_phnum) {
                Err(e) => Err(e),
                Ok(pn) => Ok((phoff as usize, pes as usize, pn as usize)),
            },
        },
    }
}

pub open spec fn default_pltrel(c: Class) -> u64 {
    match c {
        Class::Elf32 => DT_REL as u64,
        Class::Elf64 => DT_RELA as u64,
    }
}

pub open spec fn tag_or(es: Seq<(i64, u64)>, tag: i64, dflt: u64) -> u64 {
    match dyn_tag_spec(es, tag) {
        Some(v) => v,
        None => dflt,
    }
}

/// After the dynamic table is read: the slots found through its string,
/// symbol and jump-slot relocation tables.
pub open spec fn slots_via_dynamic(
    b: Seq<u8>,
    c: Class,
    hdr: (usize, usize, usize),
    bias: usize,
    es: Seq<(i64, u64)>,
    sym: Seq<u8>,
) -> Result<Seq<usize>, HookError> {
    let (phoff, pes, pn) = hdr;
    match dyn_tag_spec(es, DT_STRTAB) {
        None => Err(HookError::System),
        Some(st) => match dyn_tag_spec(es, DT_SYMTAB) {
            None => Err(HookError::System),
            Some(sy) => {
                let jmprel = tag_or(es, DT_JMPREL, 0) as usize;
                let pltrelsz = tag_or(es, DT_PLTRELSZ, 0) as usize;
                let pltrel = tag_or(es, DT_PLTREL, default_pltrel(c)) as i64;
                match v2o(b, c, phoff, pes, pn, st as usize, 0) {
                    Err(e) => Err(e),
                    Ok(stoff) => match v2o(b, c, phoff, pes, pn, sy as usize, 0) {
                        Err(e) => Err(e),
                        Ok(syoff) => if jmprel != 0 && pltrelsz != 0 {
                            match v2o(b, c, phoff, pes, pn, jmprel, 0) {
                                Err(e) => Err(e),
                                Ok(jo) => {
                                    let ent = rel_entry_size(c, pltrel);
                                    slots_from(b, c, jo, ent, (pltrelsz / ent) as usize, syoff, stoff, bias, sym, 0, Seq::empty())
                                },
                            }
                        } else {
                            Ok(Seq::empty())
                        },
                    },
                }
            },
        },
    }
}

/// The GOT slots of `sym`'s jump slots in an image of class `c` whose
/// lowest segment is mapped at `base`.
pub open spec fn jump_slots_spec(b: Seq<u8>, c: Class, base: usize, sym: Seq<u8>) -> Result<Seq<usize>, HookError> {
    match rd16(b, 16) {
        Err(e) => Err(e),
        Ok(et) => if et != ET_EXEC && et != ET_DYN {
            Err(HookError::InvalidArgument)
        } else {
            match header_at(b, c) {
                Err(e) => Err(e),
                Ok(hdr) => match load_bias_spec(b, c, hdr.0, hdr.1, hdr.2, base) {
                    Err(e) => Err(e),
                    Ok((bias, doff, dsz)) => match parse_dynamic_spec(b, c, doff, dsz) {
                        Err(e) => Err(e),
                        Ok(es) => slots_via_dynamic(b, c, hdr, bias, es, sym),
                    },
                },
            }
        },
    }
}

fn read_header(bytes: &[u8], c: Class) -> (r: Result<(usize, usize, usize), HookError>)
    ensures
        r == header_at(bytes@, c),
        r matches Ok((_, pes, pn)) ==> pes < 65536 && pn < 65536,
{
    let (o_phoff, o_phentsize, o_phnum): (usize, usize, usize) = match c {
        Class::Elf32 => (28, 42, 44),
        Class::Elf64 => (32, 54, 56),
    };
    let phoff = match read_word(bytes, c, o_phoff) {
        Ok(v) => v,
        Err(e) => return Err(e),
    };
    let pes = match read_u16(bytes, o_phentsize) {
        Ok(v) => v,
        Err(e) => return Err(e),
    };
    let pn = match read_u16(bytes, o_phnum) {
        Ok(v) => v,
        Err(e) => return Err(e),
    };
    Ok((phoff as usize, pes as usize, pn as usize))
}

fn tag_value_or(entries: &[(i64, u64)], tag: i64, dflt: u64) -> (v: u64)
    ensures
        v == tag_or(entries@, tag, dflt),
{
    match dyn_tag(entries, tag) {
        Some(v) => v,
        None => dflt,
    }
}

fn slots_through_dynamic(
    bytes: &[u8],
    c: Class,
    hdr: (usize, usize, usize),
    bias: usize,
    es: &[(i64, u64)],
    sym: &[u8],
) -> (r: Result<Vec<usize>, HookError>)
    requires
        hdr.1 < 65536,
        hdr.2 < 65536,
    ensures
        match slots_via_dynamic(bytes@, c, hdr, bias, es@, sym@) {
            Ok(s) => r matches Ok(v) && v@ == s,
            Err(e) => r == Err::<Vec<usize>, HookError>(e),
        },
{
    let (phoff, pes, pn) = hdr;
    let st = match dyn_tag(es, DT_STRTAB) {
        Some(v) => v,
        None => return Err(HookError::System),
    };
    let sy = match dyn_tag(es, DT_SYMTAB) {
        Some(v) => v,
        None => return Err(HookError::System),
    };
    let jmprel = tag_value_or(es, DT_JMPREL, 0) as usize;
    let pltrelsz = tag_value_or(es, DT_PLTRELSZ, 0) as usize;
    let dflt: u64 = match c {
        Class::Elf32 => 17,
        Class::Elf64 => 7,
    };
    let pltrel = tag_value_or(es, DT_PLTREL, dflt) as i64;
    let stoff = match vaddr_to_offset(bytes, c, phoff, pes, pn, st as usize) {
        Ok(v) => v,
        Err(e) => return Err(e),
    };
    let syoff = match vaddr_to_offset(bytes, c, phoff, pes, pn, sy as usize) {
        Ok(v) => v,
        Err(e) => return Err(e),
    };
    let mut slots: Vec<usize> = Vec::new();
    if jmprel != 0 && pltrelsz != 0 {
        let jo = match vaddr_to_offset(bytes, c, phoff, pes, pn, jmprel) {
            Ok(v) => v,
            Err(e) => return Err(e),
        };
        match collect_slots(bytes, c, jo, pltrelsz, pltrel, syoff, stoff, bias, sym, &mut slots) {
            Ok(()) => {},
            Err(e) => return Err(e),
        }
    }
    Ok(slots)
}

/// The GOT slots of `sym`'s jump slots in an image of class `c`.
pub fn jump_slots(bytes: &[u8], c: Class, mapped_base: usize, sym: &[u8]) -> (r: Result<Vec<usize>, HookError>)
    ensures
        match jump_slots_spec(bytes@, c, mapped_base, sym@) {
            Ok(s) => r matches Ok(v) && v@ == s,
            Err(e) => r == Err::<Vec<usize>, HookError>(e),
        },
{
    let et = match read_u16(bytes, 16) {
        Ok(v) => v,
        Err(e) => return Err(e),
    };
    if et != ET_EXEC && et != ET_DYN {
        return Err(HookError::InvalidArgument);
    }
    let hdr = match read_header(bytes, c) {
        Ok(h) => h,
        Err(e) => return Err(e),
    };
    let (bias, doff, dsz) = match load_bias_and_dynamic(bytes, c, hdr.0, hdr.1, hdr.2, mapped_base) {
        Ok(t) => t,
        Err(e) => return Err(e),
    };
    let es = match parse_dynamic(bytes, c, doff, dsz) {
        Ok(v) => v,
        Err(e) => return Err(e),
    };
    slots_through_dynamic(bytes, c, hdr, bias, es.as_slice(), sym)
}

pub fn jump_slots_elf32(bytes: &[u8], mapped_base: usize, symbol: &str) -> (r: Result<Vec<usize>, HookError>)
    ensures
        match jump_slots_spec(bytes@, Class::Elf32, mapped_base, symbol.spec_bytes()) {
            Ok(s) => r matches Ok(v) && v@ == s,
            Err(e) => r == Err::<Vec<usize>, HookError>(e),
        },
{
    jump_slots(bytes, Class::Elf32, mapped_base, symbol.as_bytes())
}

pub fn jump_slots_elf64(bytes: &[u8], mapped_base: usize, symbol: &str) -> (r: Result<Vec<usize>, HookError>)
    ensures
        match jump_slots_spec(bytes@, Class::Elf64, mapped_base, symbol.spec_bytes()) {
            Ok(s) => r matches Ok(v) && v@ == s,
            Err(e) => r == Err::<Vec<usize>, HookError>(e),
        },
{
    jump_slots(bytes, Class::Elf64, mapped_base, symbol.as_bytes())
}

/// Whether the file starts with the ELF magic (and holds a full ident).
pub open spec fn is_elf(b: Seq<u8>) -> bool {
    b.len() >= 16 && b[0] == 0x7f && b[1] == 0x45 && b[2] == 0x4c && b[3] == 0x46
}

/// The GOT slot addresses of `symbol`'s jump slots in an ELF image whose
/// lowest segment is mapped at `mapped_base`.
pub open spec fn jump_slot_addresses_spec(b: Seq<u8>, mapped_base: usize, sym: Seq<u8>) -> Result<Seq<usize>, HookError> {
    if !is_elf(b) {
        Err(HookError::InvalidArgument)
    } else if b[4] == ELFCLASS32 {
        jump_slots_spec(b, Class::Elf32, mapped_base, sym)
    } else if b[4] == ELFCLASS64 {
        jump_slots_spec(b, Class::Elf64, mapped_base, sym)
    } else {
        Err(HookError::InvalidArgument)
    }
}

pub fn jump_slot_addresses(bytes: &[u8], mapped_base: usize, symbol: &str) -> (r: Result<Vec<usize>, HookError>)
    ensures
        match jump_slot_addresses_spec(bytes@, mapped_base, symbol.spec_bytes()) {
            Ok(s) => r matches Ok(v) && v@ == s,
            Err(e) => r == Err::<Vec<usize>, HookError>(e),
        },
{
    if bytes.len() < 16 || !(bytes[0] == 0x7f && bytes[1] == 0x45 && bytes[2] == 0x4c && bytes[3] == 0x46) {
        return Err(HookError::InvalidArgument);
    }
    if bytes[EI_CLASS] == ELFCLASS32 {
        jump_slots_elf32(bytes, mapped_base, symbol)
    } else if bytes[EI_CLASS] == ELFCLASS64 {
        jump_slots_elf64(bytes, mapped_base, symbol)
    } else {
        Err(HookError::InvalidArgument)
    }
}

} // verus!
