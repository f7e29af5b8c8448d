use vstd::prelude::*;

use crate::cpu_list::{CpuList, parse_cpu_list, spec_parse_cpu_list};

verus! {

/// The most bytes of the online CPU file that are read; a longer file is
/// rejected as too large.
pub const MAX_ONLINE_BYTES: usize = 128;

/// Why the LXCFS CPU view could not be resolved.
#[derive(Clone, Copy, Debug, PartialEq, Eq, Structural)]
pub enum ResolveError {
    Open,
    Read,
    TooLarge,
    Invalid,
}

/// Whether a first read that returned `length` bytes filled the whole
/// buffer, so that one more byte must be read to tell whether the file is
/// longer than the buffer.
pub fn needs_extra_read(length: usize) -> (probe: bool)
    ensures
        probe == (length == MAX_ONLINE_BYTES),
{
    length == MAX_ONLINE_BYTES
}

/// Turns what was read of the online CPU file into the CPU view: `contents`
/// holds the bytes of the first read, and `extra` the number of bytes that
/// the one-byte probe read returned, where one was made. A probe that found
/// more data means the file is too large; otherwise the contents must parse
/// as a CPU list.
pub fn resolve_contents(contents: &[u8], extra: Option<usize>) -> (res: Result<CpuList, ResolveError>)
    ensures
        extra matches Some(n) && n != 0 ==> res == Err::<CpuList, ResolveError>(
            ResolveError::TooLarge,
        ),
        !(extra matches Some(n) && n != 0) ==> match res {
            Ok(list) => spec_parse_cpu_list(contents@) == Ok::<(nat, bool), crate::cpu_list::ParseError>(list@),
            Err(e) => e == ResolveError::Invalid && spec_parse_cpu_list(contents@) is Err,
        },
{
    if let Some(n) = extra {
        if n != 0 {
            return Err(ResolveError::TooLarge);
        }
    }
    match parse_cpu_list(contents) {
        Ok(list) => Ok(list),
        Err(_) => Err(ResolveError::Invalid),
    }
}

} // verus!
