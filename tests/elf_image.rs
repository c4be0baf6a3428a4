use deptool::elf::module_symbols;
use deptool::elf_check::elf_image_check;
use deptool::graph::ModuleGraph;
use deptool::module::SymbolKind;

fn put16(b: &mut Vec<u8>, v: u16) {
    b.extend_from_slice(&v.to_le_bytes());
}

fn put32(b: &mut Vec<u8>, v: u32) {
    b.extend_from_slice(&v.to_le_bytes());
}

fn put64(b: &mut Vec<u8>, v: u64) {
    b.extend_from_slice(&v.to_le_bytes());
}

fn symbol(b: &mut Vec<u8>, name: u32, info: u8, shndx: u16) {
    put32(b, name);
    b.push(info);
    b.push(0);
    put16(b, shndx);
    put64(b, 0);
    put64(b, 0);
}

#[allow(clippy::too_many_arguments)]
fn section(b: &mut Vec<u8>, name: u32, kind: u32, offset: u64, size: u64, link: u32, entsize: u64) {
    put32(b, name);
    put32(b, kind);
    put64(b, 0);
    put64(b, 0);
    put64(b, offset);
    put64(b, size);
    put32(b, link);
    put32(b, 0);
    put64(b, 1);
    put64(b, entsize);
}

/// A relocatable 64-bit ELF image whose symbol table defines the function
/// `f1` and the object `d1` and references `printk`.
fn image() -> Vec<u8> {
    let strtab = b"\0f1\0d1\0printk\0";
    let shstrtab = b"\0.symtab\0.strtab\0.shstrtab\0";
    let symtab_off: u64 = 64;
    let symtab_len: u64 = 4 * 24;
    let strtab_off = symtab_off + symtab_len;
    let shstrtab_off = strtab_off + strtab.len() as u64;
    let mut sh_off = shstrtab_off + shstrtab.len() as u64;
    sh_off += (8 - sh_off % 8) % 8;

    let mut b = vec![0x7f, b'E', b'L', b'F', 2, 1, 1, 0];
    b.extend_from_slice(&[0; 8]);
    put16(&mut b, 1);
    put16(&mut b, 0xf3);
    put32(&mut b, 1);
    put64(&mut b, 0);
    put64(&mut b, 0);
    put64(&mut b, sh_off);
    put32(&mut b, 0);
    put16(&mut b, 64);
    put16(&mut b, 56);
    put16(&mut b, 0);
    put16(&mut b, 64);
    put16(&mut b, 4);
    put16(&mut b, 3);
    assert_eq!(b.len(), 64);

    symbol(&mut b, 0, 0, 0);
    symbol(&mut b, 1, 0x12, 1);
    symbol(&mut b, 4, 0x11, 2);
    symbol(&mut b, 7, 0x10, 0);
    b.extend_from_slice(strtab);
    b.extend_from_slice(shstrtab);
    while (b.len() as u64) < sh_off {
        b.push(0);
    }
    section(&mut b, 0, 0, 0, 0, 0, 0);
    section(&mut b, 1, 2, symtab_off, symtab_len, 2, 24);
    section(&mut b, 9, 3, strtab_off, strtab.len() as u64, 0, 0);
    section(&mut b, 17, 3, shstrtab_off, shstrtab.len() as u64, 0, 0);
    b
}

#[test]
fn symbol_table_is_read() {
    let syms = module_symbols(&image()).unwrap();
    let view: Vec<(String, SymbolKind, u16)> =
        syms.iter().map(|e| (e.name.clone(), e.kind, e.section_index)).collect();
    assert_eq!(
        view,
        vec![
            ("".to_string(), SymbolKind::Other, 0),
            ("f1".to_string(), SymbolKind::Function, 1),
            ("d1".to_string(), SymbolKind::Data, 2),
            ("printk".to_string(), SymbolKind::Other, 0),
        ]
    );
}

#[test]
fn module_is_loaded_from_image() {
    let mut g = ModuleGraph::new(&vec!["printk".to_string()]);
    let id = g.load_module("drivers/demo", &image()).unwrap();
    assert_eq!(id, 1);
    assert_eq!(g.modules[1].name, "drivers/demo");
    assert_eq!(g.modules[1].element_count, 2);
    assert_eq!(g.modules[1].undefined_symbols, vec!["printk".to_string()]);
    assert_eq!(g.lookup("f1"), Some(1));
    assert_eq!(g.lookup("d1"), Some(1));
    assert_eq!(g.lookup("printk"), Some(0));
}

fn section_header_offset(b: &[u8], index: usize) -> usize {
    let off = u64::from_le_bytes(b[0x28..0x30].try_into().unwrap()) as usize;
    off + 64 * index
}

#[test]
fn well_formed_image_passes_check() {
    assert!(elf_image_check(&image()));
}

#[test]
fn truncated_image_is_rejected() {
    let b = image();
    assert!(!elf_image_check(&b[..100]));
    assert!(module_symbols(&b[..100]).is_none());
    assert!(!elf_image_check(&b[..40]));
}

#[test]
fn symtab_with_partial_entry_is_rejected() {
    let mut b = image();
    let h = section_header_offset(&b, 1) + 0x20;
    b[h..h + 8].copy_from_slice(&95u64.to_le_bytes());
    assert!(!elf_image_check(&b));
    assert!(module_symbols(&b).is_none());
}

#[test]
fn symbol_name_past_strtab_is_rejected() {
    let mut b = image();
    let sym3 = 64 + 3 * 24;
    b[sym3..sym3 + 4].copy_from_slice(&200u32.to_le_bytes());
    assert!(!elf_image_check(&b));
    let mut g = ModuleGraph::new(&Vec::new());
    assert_eq!(g.load_module("bad", &b), None);
}

#[test]
fn unterminated_or_non_ascii_name_is_rejected() {
    let mut b = image();
    let strtab_end = 64 + 4 * 24 + 14;
    b[strtab_end - 1] = b'x';
    assert!(!elf_image_check(&b));
    let mut c = image();
    c[64 + 4 * 24 + 1] = 0xff;
    assert!(!elf_image_check(&c));
}

#[test]
fn section_table_past_end_is_rejected() {
    let mut b = image();
    b[0x28..0x30].copy_from_slice(&4096u64.to_le_bytes());
    assert!(!elf_image_check(&b));
    assert!(module_symbols(&b).is_none());
}
