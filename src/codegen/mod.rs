//! Code generation: the assembly forms and the lowering pass between them.
pub mod assembly;
pub mod x86_pass;
