use vstd::prelude::*;

use crate::cpu_list::CpuList;
use crate::resolve::ResolveError;

verus! {

/// Whether a CPU-count hook answers from the LXCFS view: only for a count
/// query, and never in a secure-execution (setuid) process. Otherwise the
/// call goes to the real glibc function.
pub fn count_hook_reads_view(secure_execution: bool, count_query: bool) -> (reads: bool)
    ensures
        reads == (!secure_execution && count_query),
{
    !secure_execution && count_query
}

/// The answer of a CPU-count hook from the view it resolved: the view's CPU
/// count, which always fits a `c_int`, or nothing when the view could not be
/// resolved, in which case the call goes to the real glibc function.
pub fn count_hook_answer(view: Result<CpuList, ResolveError>) -> (answer: Option<i32>)
    ensures
        match view {
            Ok(list) => answer matches Some(n) && n as int == list@.0,
            Err(_) => answer is None,
        },
{
    match view {
        Ok(list) => {
            let count = list.count();
            Some(count as i32)
        },
        Err(_) => None,
    }
}

/// Whether the affinity hook replaces the real mask with the LXCFS view:
/// only for the calling thread (`pid == 0`), and never in a
/// secure-execution process. Otherwise the real mask is returned as is.
pub fn affinity_hook_reads_view(pid: i32, secure_execution: bool) -> (reads: bool)
    ensures
        reads == (pid == 0 && !secure_execution),
{
    pid == 0 && !secure_execution
}

} // verus!
