use vstd::prelude::*;

use crate::cpu_list::CpuList;
use crate::mask::{build_contiguous_mask, cpu_bit_set, mask_bytes_for};

verus! {

/// The number of CPUs among `0..n` whose bit is set in `mask`.
pub open spec fn set_cpu_count(mask: Seq<u8>, n: int) -> nat
    decreases n,
{
    if n <= 0 {
        0
    } else {
        set_cpu_count(mask, n - 1) + if cpu_bit_set(mask, n - 1) {
            1nat
        } else {
            0nat
        }
    }
}

proof fn lemma_set_cpu_count_bound(mask: Seq<u8>, n: int)
    requires
        0 <= n,
    ensures
        set_cpu_count(mask, n) <= n,
    decreases n,
{
    if n > 0 {
        lemma_set_cpu_count_bound(mask, n - 1);
    }
}

/// The CPUs among `0..n` whose bit is set in `mask`.
pub open spec fn set_cpus(mask: Seq<u8>, n: int) -> Set<int> {
    Set::new(|cpu: int| 0 <= cpu < n && cpu_bit_set(mask, cpu))
}

/// The count of set CPUs among `0..n` is the number of CPUs whose bit is
/// set, for every mask: every set bit of every byte counts once.
pub proof fn law_set_cpu_count_is_number_of_set_cpus(mask: Seq<u8>, n: int)
    requires
        0 <= n,
    ensures
        set_cpus(mask, n).finite(),
        set_cpus(mask, n).len() == set_cpu_count(mask, n),
    decreases n,
{
    if n == 0 {
        assert(set_cpus(mask, 0) =~= Set::<int>::empty());
    } else {
        law_set_cpu_count_is_number_of_set_cpus(mask, n - 1);
        let before = set_cpus(mask, n - 1);
        assert(!before.contains(n - 1));
        if cpu_bit_set(mask, n - 1) {
            assert(set_cpus(mask, n) =~= before.insert(n - 1));
        } else {
            assert(set_cpus(mask, n) =~= before);
        }
    }
}

/// Counts the CPUs set in the first `bytes` bytes of `mask`, byte by byte.
pub fn count_set_bits(mask: &[u8], bytes: usize) -> (n: usize)
    requires
        bytes <= mask@.len(),
        bytes <= usize::MAX / 8,
    ensures
        n == set_cpu_count(mask@, 8 * bytes),
        n == set_cpus(mask@, 8 * bytes).len(),
{
    let mut n: usize = 0;
    let mut j: usize = 0;
    while j < bytes
        invariant
            bytes <= mask@.len(),
            bytes <= usize::MAX / 8,
            j <= bytes,
            n == set_cpu_count(mask@, 8 * j),
        decreases bytes - j,
    {
        proof {
            lemma_set_cpu_count_bound(mask@, 8 * j);
        }
        let byte = mask[j];
        let mut k: u8 = 0;
        while k < 8
            invariant
                bytes <= mask@.len(),
                bytes <= usize::MAX / 8,
                j < bytes,
                byte == mask@[j as int],
                k <= 8,
                n == set_cpu_count(mask@, 8 * j + k),
                n <= 8 * j + k,
            decreases 8 - k,
        {
            let ghost cpu = 8 * j + k;
            assert(cpu / 8 == j && cpu % 8 == k);
            if (byte >> k) & 1 == 1 {
                n += 1;
            }
            k += 1;
        }
        j += 1;
    }
    proof {
        law_set_cpu_count_is_number_of_set_cpus(mask@, 8 * bytes);
    }
    n
}


/// The size, in bytes, of the mask that the affinity system call is asked
/// to fill: the caller's size, capped at the largest `c_int`.
pub fn affinity_request_size(cpusetsize: usize) -> (size: usize)
    ensures
        size == (if cpusetsize <= i32::MAX { cpusetsize as int } else { i32::MAX as int }),
{
    if cpusetsize <= i32::MAX as usize {
        cpusetsize
    } else {
        i32::MAX as usize
    }
}

/// The largest error number that a raw Linux system call returns negated.
pub const MAX_ERRNO: isize = 4095;

/// Interprets the raw return value of the affinity system call, asked to
/// fill `size` bytes: the number of mask bytes that the kernel wrote, or
/// the error number to report. `io_error` is the error number reported for
/// a result that no kernel gives.
pub fn affinity_syscall_outcome(result: isize, size: usize, io_error: i32) -> (outcome: Result<
    usize,
    i32,
>)
    ensures
        result < 0 && -result <= MAX_ERRNO ==> outcome == Err::<usize, i32>((-result) as i32),
        result < 0 && -result > MAX_ERRNO ==> outcome == Err::<usize, i32>(io_error),
        result >= 0 && result > size ==> outcome == Err::<usize, i32>(io_error),
        result >= 0 && result <= size ==> outcome == Ok::<usize, i32>(result as usize),
{
    if result < 0 {
        if result >= -MAX_ERRNO {
            return Err((-result) as i32);
        }
        return Err(io_error);
    }
    let bytes = result as usize;
    if bytes > size {
        return Err(io_error);
    }
    Ok(bytes)
}

/// Clears the bytes of `mask` past the `kernel_bytes` that the kernel wrote,
/// as glibc does when the call succeeds.
pub fn clear_unreturned_bytes(mask: &mut [u8], kernel_bytes: usize)
    requires
        kernel_bytes <= old(mask)@.len(),
    ensures
        final(mask)@.len() == old(mask)@.len(),
        forall|j: int| 0 <= j < kernel_bytes ==> #[trigger] final(mask)@[j] == old(mask)@[j],
        forall|j: int| kernel_bytes <= j < final(mask)@.len() ==> #[trigger] final(mask)@[j] == 0u8,
{
    let len = mask.len();
    let mut j = kernel_bytes;
    while j < len
        invariant
            len == mask@.len(),
            len == old(mask)@.len(),
            kernel_bytes <= j <= len,
            forall|i: int| 0 <= i < kernel_bytes ==> #[trigger] mask@[i] == old(mask)@[i],
            forall|i: int| kernel_bytes <= i < j ==> #[trigger] mask@[i] == 0u8,
        decreases len - j,
    {
        mask[j] = 0;
        j += 1;
    }
}

/// The number of CPUs that the virtual mask shows, for an LXCFS view and
/// the real mask: the view's count, capped at the real count.
pub open spec fn virtual_cpu_count(view: (nat, bool), real_count: nat) -> nat {
    if view.0 <= real_count {
        view.0
    } else {
        real_count
    }
}

/// The virtual count is the view's count clamped to the real count: it
/// exceeds neither, and it equals one of them.
pub proof fn law_virtual_count_is_the_clamp(view: (nat, bool), real_count: nat)
    ensures
        virtual_cpu_count(view, real_count) <= view.0,
        virtual_cpu_count(view, real_count) <= real_count,
        virtual_cpu_count(view, real_count) == view.0 || virtual_cpu_count(view, real_count)
            == real_count,
{
}

/// Replaces the real affinity mask, whose first `kernel_bytes` bytes the
/// kernel wrote, with the virtual CPUs `0..n`, where `n` is the view's count
/// capped at the real count. This happens only for a view that is exactly
/// `0..count` and a nonzero `n`; otherwise the real mask stays. Returns
/// whether the mask was replaced.
pub fn apply_virtual_affinity(mask: &mut [u8], kernel_bytes: usize, view: CpuList) -> (replaced: bool)
    requires
        kernel_bytes <= old(mask)@.len(),
        kernel_bytes <= usize::MAX / 8,
    ensures
        ({
            let real_cpus = set_cpus(old(mask)@, 8 * kernel_bytes).len();
            let n = virtual_cpu_count(view@, set_cpu_count(old(mask)@, 8 * kernel_bytes));
            &&& n <= view@.0
            &&& n <= real_cpus
            &&& (n == view@.0 || n == real_cpus)
            &&& (if view@.1 && n > 0 {
                &&& replaced
                &&& final(mask)@.len() == old(mask)@.len()
                &&& forall|cpu: int|
                    0 <= cpu < 8 * final(mask)@.len() ==> (#[trigger] cpu_bit_set(final(mask)@, cpu)
                        <==> cpu < n)
                &&& set_cpu_count(final(mask)@, 8 * final(mask)@.len() as int) == n
                &&& set_cpus(final(mask)@, 8 * final(mask)@.len() as int).len() == n
            } else {
                &&& !replaced
                &&& final(mask)@ == old(mask)@
            })
        }),
{
    proof {
        law_set_cpu_count_is_number_of_set_cpus(mask@, 8 * kernel_bytes);
        law_virtual_count_is_the_clamp(view@, set_cpu_count(mask@, 8 * kernel_bytes));
    }
    if !view.is_contiguous_from_zero() {
        return false;
    }
    let real_count = count_set_bits(mask, kernel_bytes);
    proof {
        lemma_set_cpu_count_bound(mask@, 8 * kernel_bytes);
    }
    let view_count = view.count();
    let count = if view_count <= real_count {
        view_count
    } else {
        real_count
    };
    assert(mask_bytes_for(count as int) <= kernel_bytes);
    // `count` is bounded by the successfully returned kernel mask.
    let built = build_contiguous_mask(mask, count);
    proof {
        if count > 0 {
            law_mask_of_first_cpus_counts_them(mask@, count as int);
            law_set_cpu_count_is_number_of_set_cpus(mask@, 8 * mask@.len() as int);
        }
    }
    built.is_ok()
}

/// A mask whose set bits are exactly the CPUs `0..n` counts `n` CPUs.
pub proof fn law_mask_of_first_cpus_counts_them(mask: Seq<u8>, n: int)
    requires
        0 <= n <= 8 * mask.len(),
        forall|cpu: int| 0 <= cpu < 8 * mask.len() ==> (#[trigger] cpu_bit_set(mask, cpu) <==> cpu < n),
    ensures
        set_cpu_count(mask, 8 * mask.len() as int) == n,
{
    lemma_count_of_prefix_mask(mask, n, 8 * mask.len() as int);
}

proof fn lemma_count_of_prefix_mask(mask: Seq<u8>, n: int, m: int)
    requires
        0 <= n,
        0 <= m <= 8 * mask.len(),
        forall|cpu: int| 0 <= cpu < 8 * mask.len() ==> (#[trigger] cpu_bit_set(mask, cpu) <==> cpu < n),
    ensures
        set_cpu_count(mask, m) == if m <= n { m } else { n },
    decreases m,
{
    if m > 0 {
        lemma_count_of_prefix_mask(mask, n, m - 1);
        assert(cpu_bit_set(mask, m - 1) <==> m - 1 < n);
    }
}

} // verus!
