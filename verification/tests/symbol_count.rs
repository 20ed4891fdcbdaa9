use kcacheext::{count_symbols, ExtractError};

fn push_u32(v: &mut Vec<u8>, x: u32) {
    v.extend_from_slice(&x.to_le_bytes());
}

fn push_u64(v: &mut Vec<u8>, x: u64) {
    v.extend_from_slice(&x.to_le_bytes());
}

/// A minimal 64-bit executable image with a symbol table of `nsyms`
/// entries.
fn macho_with_symtab(nsyms: u32) -> Vec<u8> {
    let mut v = Vec::new();
    push_u32(&mut v, 0xFEED_FACF); // 64-bit magic
    push_u32(&mut v, 0x0100_000C); // cputype
    push_u32(&mut v, 0); // cpusubtype
    push_u32(&mut v, 2); // filetype: executable
    push_u32(&mut v, 1); // ncmds
    push_u32(&mut v, 24); // sizeofcmds
    push_u32(&mut v, 0); // flags
    push_u32(&mut v, 0); // reserved
    let symoff = 32 + 24u32;
    let stroff = symoff + nsyms * 16;
    push_u32(&mut v, 0x2); // LC_SYMTAB
    push_u32(&mut v, 24); // cmdsize
    push_u32(&mut v, symoff);
    push_u32(&mut v, nsyms);
    push_u32(&mut v, stroff);
    push_u32(&mut v, 2); // strsize
    for _ in 0..nsyms {
        push_u32(&mut v, 1); // n_strx
        v.push(0x0F); // n_type
        v.push(1); // n_sect
        v.extend_from_slice(&0u16.to_le_bytes()); // n_desc
        push_u64(&mut v, 0); // n_value
    }
    v.push(0);
    v.push(0);
    v
}

/// A minimal 64-bit executable image with no load commands at all.
fn macho_without_symtab() -> Vec<u8> {
    let mut v = Vec::new();
    push_u32(&mut v, 0xFEED_FACF);
    push_u32(&mut v, 0x0100_000C);
    push_u32(&mut v, 0);
    push_u32(&mut v, 2);
    push_u32(&mut v, 0); // ncmds
    push_u32(&mut v, 0); // sizeofcmds
    push_u32(&mut v, 0);
    push_u32(&mut v, 0);
    v
}

#[test]
fn counts_declared_symbols() {
    assert_eq!(count_symbols(&macho_with_symtab(3)).unwrap(), 3);
}

#[test]
fn counts_many_declared_symbols() {
    assert_eq!(count_symbols(&macho_with_symtab(40)).unwrap(), 40);
}

#[test]
fn image_without_symtab_counts_zero() {
    assert_eq!(count_symbols(&macho_without_symtab()).unwrap(), 0);
}

#[test]
fn unparseable_image_is_an_error() {
    let r = count_symbols(b"not an executable image");
    assert!(matches!(r, Err(ExtractError::MachoParseFailed)));
}

#[test]
fn empty_buffer_is_an_error() {
    let r = count_symbols(&[]);
    assert!(matches!(r, Err(ExtractError::MachoParseFailed)));
}
