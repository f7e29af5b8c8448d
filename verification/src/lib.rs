//! Parsing of Linux CPU-list views and construction of synthetic affinity
//! masks, with the decisions of the CPU-discovery hooks that use them.

pub mod affinity;
pub mod cpu_list;
pub mod cpu_list_laws;
pub mod hooks;
pub mod mask;
pub mod resolve;
pub mod symbol_slot;

pub use cpu_list::{parse_cpu_list, CpuList, ParseError};
pub use mask::{build_contiguous_mask, MaskError};
pub use resolve::ResolveError;
