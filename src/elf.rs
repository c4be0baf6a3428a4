use vstd::prelude::*;
use xmas_elf::ElfFile;
use xmas_elf::sections::SectionData;
use xmas_elf::symbol_table::{Entry, Type};
use crate::module::{SymbolEntry, SymbolKind};
use crate::graph::{ModuleGraph, define_exports, exported_count, imported_names};
use crate::module::ModuleStatus;
use crate::elf_check::{elf_image_ok, elf_image_check};

verus! {

/// A symbol entry as plain values: name, kind and section index.
pub open spec fn symbol_view(e: SymbolEntry) -> (Seq<char>, SymbolKind, u16) {
    (e.name@, e.kind, e.section_index)
}

/// A table of symbol entries as plain values.
pub open spec fn symbols_view(syms: Seq<SymbolEntry>) -> Seq<(Seq<char>, SymbolKind, u16)> {
    syms.map_values(|e: SymbolEntry| symbol_view(e))
}

/// The entries of the 64-bit symbol table in the `.symtab` section of the
/// ELF image, or nothing if the reader finds no such table or an entry it
/// cannot read.
pub uninterp spec fn elf_symbols(image: Seq<u8>) -> Option<Seq<(Seq<char>, SymbolKind, u16)>>;

/// Relies on `xmas_elf`: `ElfFile::new`, `find_section_by_name`,
/// `get_data` and, per entry, `get_type`, `get_name` and `shndx`; the
/// entries depend on the image alone. On images that `elf_image_ok`
/// admits these stay within the image and find every string ended by NUL
/// and valid UTF-8, so they do not panic; the image is first copied to an
/// 8-byte aligned place, as the reader's `zero::read` asserts alignment.
/// Field values are read in the host's byte order, little-endian here.
#[verifier::external_body]
fn read_symbols(image: &[u8]) -> (r: Option<Vec<SymbolEntry>>)
    requires
        elf_image_ok(image@),
    ensures
        (r is Some) == (elf_symbols(image@) is Some),
        r matches Some(v) ==> symbols_view(v@) == elf_symbols(image@).unwrap(),
{
    let mut buf = vec![0u8; 8];
    buf.reserve(image.len());
    buf.truncate(buf.as_ptr().align_offset(8));
    let skip = buf.len();
    buf.extend_from_slice(image);
    let elf = ElfFile::new(&buf[skip..]).ok()?;
    let SectionData::SymbolTable64(entries) = elf.find_section_by_name(".symtab")?.get_data(&elf).ok()? else { return None };
    entries.iter().map(|e| {
        let kind = match e.get_type().ok()? { Type::Func => SymbolKind::Function, Type::Object => SymbolKind::Data, _ => SymbolKind::Other };
        Some(SymbolEntry { name: e.get_name(&elf).ok()?.to_string(), kind, section_index: e.shndx() })
    }).collect()
}

/// Symbol entries of a module image, from its `.symtab` section; nothing
/// for an image that the reader cannot walk safely (see `elf_image_ok`).
pub fn module_symbols(image: &[u8]) -> (r: Option<Vec<SymbolEntry>>)
    ensures
        (r is Some) == (elf_image_ok(image@) && elf_symbols(image@) is Some),
        r matches Some(v) ==> symbols_view(v@) == elf_symbols(image@).unwrap(),
{
    if !elf_image_check(image) {
        return None;
    }
    read_symbols(image)
}

impl ModuleGraph {
    /// Adds the module `name` from its ELF image (see `add_module`); an
    /// image without a readable symbol table adds nothing.
    pub fn load_module(&mut self, name: &str, image: &[u8]) -> (r: Option<usize>)
        requires
            old(self).wf(),
            old(self).len() < usize::MAX,
        ensures
            final(self).wf(),
            (r is Some) == (elf_image_ok(image@) && elf_symbols(image@) is Some),
            r is None ==> *final(self) == *old(self),
            r matches Some(id) ==> exists|syms: Seq<SymbolEntry>| {
                &&& #[trigger] symbols_view(syms) == elf_symbols(image@).unwrap()
                &&& id == old(self).len()
                &&& final(self).len() == old(self).len() + 1
                &&& final(self).modules@.subrange(0, id as int) == old(self).modules@
                &&& final(self).modules@[id as int].name@ == name@
                &&& final(self).modules@[id as int].status == ModuleStatus::Untouched
                &&& final(self).modules@[id as int].edges@.len() == 0
                &&& final(self).modules@[id as int].element_count == exported_count(syms)
                &&& final(self).pending_names(id as int) == imported_names(syms)
                &&& final(self).index@ == define_exports(old(self).index@, syms, id)
            },
    {
        match module_symbols(image) {
            Some(syms) => {
                let id = self.add_module(name, &syms);
                Some(id)
            },
            None => None,
        }
    }
}

} // verus!
