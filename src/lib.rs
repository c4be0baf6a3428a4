//! Dependency analysis over compiled kernel modules: a symbol index, a module
//! graph built from unresolved symbol references, a coupling ("diffusion")
//! measure over dependents, and a strict dependency-first ordering, with the
//! artifacts built from them; plus the small platform pieces of the kernel
//! around it (console bytes, interrupt dispatch, log level).
pub mod module;
pub mod text;
pub mod graph;
pub mod ordering;
pub mod diffusion;
pub mod resolve;
pub mod artifacts;
pub mod irq;
pub mod console;
pub mod logging;
pub mod elf;
pub mod discovery;
pub mod render;
pub mod elf_check;
