use vstd::prelude::*;

verus! {

/// Why a synthetic mask could not be constructed.
#[derive(Clone, Copy, Debug, PartialEq, Eq, Structural)]
pub enum MaskError {
    EmptyCpuCount,
    BufferTooSmall,
}

/// Whether bit `cpu` of the affinity mask `mask` is set: bit `cpu % 8` of byte `cpu / 8`.
pub open spec fn cpu_bit_set(mask: Seq<u8>, cpu: int) -> bool {
    (mask[cpu / 8] >> ((cpu % 8) as u8)) & 1u8 == 1u8
}

/// The number of bytes that a mask of `count` CPUs needs: `count` divided by 8, rounded up.
pub open spec fn mask_bytes_for(count: int) -> int {
    (count + 7) / 8
}

proof fn lemma_bit_of_or(x: u8, k: u8, j: u8)
    requires
        k < 8,
        j < 8,
    ensures
        ((x | (1u8 << k)) >> j) & 1u8 == (if j == k { 1u8 } else { (x >> j) & 1u8 }),
{
    assert(((x | (1u8 << k)) >> j) & 1u8 == (if j == k { 1u8 } else { (x >> j) & 1u8 }))
        by (bit_vector)
        requires
            k < 8,
            j < 8,
    ;
}

proof fn lemma_zero_has_no_bits(j: u8)
    ensures
        (0u8 >> j) & 1u8 == 0u8,
{
    assert((0u8 >> j) & 1u8 == 0u8) by (bit_vector);
}

/// Clears `mask` and sets bits for contiguous virtual CPUs `0..count`.
pub fn build_contiguous_mask(mask: &mut [u8], count: usize) -> (res: Result<(), MaskError>)
    ensures
        count == 0 ==> res == Err::<(), MaskError>(MaskError::EmptyCpuCount),
        count > 0 && old(mask)@.len() < mask_bytes_for(count as int) ==> res == Err::<(), MaskError>(
            MaskError::BufferTooSmall,
        ),
        res is Err ==> final(mask)@ == old(mask)@,
        count > 0 && old(mask)@.len() >= mask_bytes_for(count as int) ==> {
            &&& res is Ok
            &&& final(mask)@.len() == old(mask)@.len()
            &&& forall|cpu: int|
                0 <= cpu < 8 * final(mask)@.len() ==> (#[trigger] cpu_bit_set(final(mask)@, cpu)
                    <==> cpu < count)
        },
{
    if count == 0 {
        return Err(MaskError::EmptyCpuCount);
    }
    let needed = count / 8 + if count % 8 == 0 { 0 } else { 1 };
    assert(needed == mask_bytes_for(count as int));
    if mask.len() < needed {
        return Err(MaskError::BufferTooSmall);
    }

    let len = mask.len();
    let mut i: usize = 0;
    while i < len
        invariant
            len == mask@.len(),
            i <= len,
            forall|j: int| 0 <= j < i ==> #[trigger] mask@[j] == 0u8,
        decreases len - i,
    {
        mask[i] = 0;
        i += 1;
    }
    assert forall|cpu: int| 0 <= cpu < 8 * len implies !#[trigger] cpu_bit_set(mask@, cpu) by {
        lemma_zero_has_no_bits((cpu % 8) as u8);
    }

    let mut cpu: usize = 0;
    while cpu < count
        invariant
            len == mask@.len(),
            len >= needed,
            needed == mask_bytes_for(count as int),
            cpu <= count,
            forall|c: int| 0 <= c < 8 * len ==> (#[trigger] cpu_bit_set(mask@, c) <==> c < cpu),
        decreases count - cpu,
    {
        let byte = cpu / 8;
        let bit = (cpu % 8) as u8;
        let ghost before = mask@;
        mask[byte] = mask[byte] | (1u8 << bit);
        assert forall|c: int| 0 <= c < 8 * len implies (#[trigger] cpu_bit_set(mask@, c) <==> c
            < cpu + 1) by {
            lemma_bit_of_or(before[byte as int], bit, (c % 8) as u8);
            if c / 8 != byte {
                assert(mask@[c / 8] == before[c / 8]);
                assert(cpu_bit_set(before, c) == cpu_bit_set(mask@, c));
            } else {
                assert(mask@[c / 8] == before[byte as int] | (1u8 << bit));
                if (c % 8) as u8 == bit {
                    assert(c == cpu);
                } else {
                    assert(c != cpu);
                    assert(cpu_bit_set(before, c) == cpu_bit_set(mask@, c));
                }
            }
        }
        cpu += 1;
    }
    Ok(())
}

} // verus!
