use cpuhint::affinity::{
    affinity_request_size, affinity_syscall_outcome, apply_virtual_affinity, clear_unreturned_bytes,
    count_set_bits,
};
use cpuhint::resolve::{needs_extra_read, resolve_contents, MAX_ONLINE_BYTES};
use cpuhint::hooks::{affinity_hook_reads_view, count_hook_answer, count_hook_reads_view};
use cpuhint::symbol_slot::{
    lookup_result, read_slot, slot_after_lookup, SlotReading, SLOT_RESOLVING, SLOT_UNAVAILABLE,
    SLOT_UNRESOLVED,
};
use cpuhint::{build_contiguous_mask, parse_cpu_list, MaskError, ParseError, ResolveError};

fn bit_set(mask: &[u8], cpu: usize) -> bool {
    mask[cpu / 8] & (1 << (cpu % 8)) != 0
}

#[test]
fn surrounding_whitespace_never_changes_the_result() {
    for data in [
        b"0".as_slice(),
        b"0-3,8-11",
        b"5-5",
        b"",
        b"1-0",
        b"0,",
        b"x",
        b" 0-1 ",
    ] {
        let mut padded = vec![b' '];
        padded.extend_from_slice(data);
        padded.push(b'\n');
        assert_eq!(parse_cpu_list(&padded), parse_cpu_list(data));
        let mut padded = b"\t\r\x0c".to_vec();
        padded.extend_from_slice(data);
        padded.extend_from_slice(b" \n\n");
        assert_eq!(parse_cpu_list(&padded), parse_cpu_list(data));
    }
}

#[test]
fn canonical_contiguous_lists_round_trip() {
    for n in [1usize, 2, 3, 10, 11, 100, 4096, 2147483647] {
        let canonical = if n == 1 {
            String::from("0")
        } else {
            format!("0-{}", n - 1)
        };
        let list = parse_cpu_list(canonical.as_bytes()).unwrap();
        assert_eq!(list.count(), n);
        assert!(list.is_contiguous_from_zero());
    }
}

#[test]
fn contiguity_means_exactly_zero_to_count() {
    for (input, count, contiguous) in [
        (b"0,1,2".as_slice(), 3, true),
        (b"0-1,2-3".as_slice(), 4, true),
        (b"0,1-4,5".as_slice(), 6, true),
        (b"1-3".as_slice(), 3, false),
        (b"0,2".as_slice(), 2, false),
        (b"0-1,3-4".as_slice(), 4, false),
    ] {
        let list = parse_cpu_list(input).unwrap();
        assert_eq!(list.count(), count);
        assert_eq!(list.is_contiguous_from_zero(), contiguous);
    }
}

#[test]
fn every_parse_error_has_an_input() {
    for (input, error) in [
        (b" \t\n".as_slice(), ParseError::Empty),
        (b"0;1".as_slice(), ParseError::InvalidCharacter),
        (b"0 -3".as_slice(), ParseError::InvalidCharacter),
        (b"0-3x".as_slice(), ParseError::InvalidCharacter),
        (b"-1".as_slice(), ParseError::InvalidNumber),
        (b"+1".as_slice(), ParseError::InvalidNumber),
        (b"0--1".as_slice(), ParseError::InvalidNumber),
        (b"0,,1".as_slice(), ParseError::InvalidNumber),
        (b"\x0b0".as_slice(), ParseError::InvalidNumber),
        (b"3-1,x".as_slice(), ParseError::ReversedRange),
        (b"3,3".as_slice(), ParseError::UnorderedOrOverlapping),
        (b"0-4,2-8".as_slice(), ParseError::UnorderedOrOverlapping),
        (b"0-99999999999999999999".as_slice(), ParseError::Overflow),
        (b"0-2147483646,2147483648".as_slice(), ParseError::CountExceedsAbi),
        (b"0-2147483647,x".as_slice(), ParseError::CountExceedsAbi),
    ] {
        assert_eq!(parse_cpu_list(input), Err(error), "{:?}", input);
    }
    let max = usize::MAX.to_string();
    assert_eq!(
        parse_cpu_list(format!("0-{max}").as_bytes()),
        Err(ParseError::Overflow)
    );
    assert_eq!(
        parse_cpu_list(format!("0,1-{max}").as_bytes()),
        Err(ParseError::Overflow)
    );
    let list = parse_cpu_list(b"0-2147483646").unwrap();
    assert_eq!(list.count(), 2147483647);
}

#[test]
fn parse_errors_describe_themselves() {
    for (error, text) in [
        (ParseError::Empty, "CPU list is empty"),
        (ParseError::InvalidCharacter, "CPU list contains invalid syntax"),
        (ParseError::InvalidNumber, "CPU list contains an invalid CPU number"),
        (ParseError::ReversedRange, "CPU list contains a reversed range"),
        (ParseError::UnorderedOrOverlapping, "CPU list is unordered or overlapping"),
        (ParseError::Overflow, "CPU list arithmetic overflowed"),
        (ParseError::ZeroCount, "CPU list contains no CPUs"),
        (ParseError::CountExceedsAbi, "CPU count does not fit the public ABI"),
    ] {
        assert_eq!(error.message(), text);
    }
}

#[test]
fn mask_bits_are_exactly_the_first_cpus() {
    for len in 0..6usize {
        for count in 0..50usize {
            let mut storage = [0xa5u8; 8];
            let original = storage;
            let result = build_contiguous_mask(&mut storage[..len], count);
            let fits = count > 0 && count.div_ceil(8) <= len;
            assert_eq!(result.is_ok(), fits);
            if !fits {
                assert_eq!(storage, original);
                let expected = if count == 0 {
                    MaskError::EmptyCpuCount
                } else {
                    MaskError::BufferTooSmall
                };
                assert_eq!(result, Err(expected));
                continue;
            }
            for bit in 0..len * 8 {
                assert_eq!(bit_set(&storage, bit), bit < count);
            }
            assert_eq!(&storage[len..], &original[len..]);
        }
    }
    let mut mask = [0u8; 2];
    build_contiguous_mask(&mut mask, 9).unwrap();
    assert_eq!(mask, [0xff, 0x01]);
}

#[test]
fn affinity_request_size_is_capped_at_c_int() {
    assert_eq!(affinity_request_size(128), 128);
    assert_eq!(affinity_request_size(i32::MAX as usize), i32::MAX as usize);
    assert_eq!(affinity_request_size(usize::MAX), i32::MAX as usize);
}

#[test]
fn affinity_syscall_outcomes() {
    assert_eq!(affinity_syscall_outcome(8, 128, 5), Ok(8));
    assert_eq!(affinity_syscall_outcome(128, 128, 5), Ok(128));
    assert_eq!(affinity_syscall_outcome(129, 128, 5), Err(5));
    assert_eq!(affinity_syscall_outcome(-22, 128, 5), Err(22));
    assert_eq!(affinity_syscall_outcome(-4095, 128, 5), Err(4095));
    assert_eq!(affinity_syscall_outcome(-4096, 128, 5), Err(5));
    assert_eq!(affinity_syscall_outcome(isize::MIN, 128, 5), Err(5));
}

#[test]
fn unreturned_bytes_are_cleared() {
    let mut mask = [0xffu8, 0x0f, 0xee, 0xdd];
    clear_unreturned_bytes(&mut mask, 2);
    assert_eq!(mask, [0xff, 0x0f, 0, 0]);
    let mut mask = [0x11u8, 0x22];
    clear_unreturned_bytes(&mut mask, 2);
    assert_eq!(mask, [0x11, 0x22]);
}

#[test]
fn set_bits_are_counted_per_returned_byte() {
    let mask = [0xffu8, 0x01, 0x80, 0xff];
    assert_eq!(count_set_bits(&mask, 0), 0);
    assert_eq!(count_set_bits(&mask, 1), 8);
    assert_eq!(count_set_bits(&mask, 3), 10);
    assert_eq!(count_set_bits(&mask, 4), 18);
    assert_eq!(count_set_bits(&[0x5a, 0x00], 2), 4);
}

#[test]
fn virtual_affinity_is_clamped_to_the_real_mask() {
    let two = parse_cpu_list(b"0-1\n").unwrap();
    let mut mask = [0xffu8, 0xff, 0, 0];
    assert!(apply_virtual_affinity(&mut mask, 2, two));
    assert_eq!(mask, [0x03, 0, 0, 0]);

    let eight = parse_cpu_list(b"0-7").unwrap();
    let mut mask = [0x05u8, 0, 0];
    assert!(apply_virtual_affinity(&mut mask, 1, eight));
    assert_eq!(mask, [0x03, 0, 0]);

    let disjoint = parse_cpu_list(b"0-3,8-11").unwrap();
    let mut mask = [0xf0u8, 0x0f];
    assert!(!apply_virtual_affinity(&mut mask, 2, disjoint));
    assert_eq!(mask, [0xf0, 0x0f]);

    let mut empty = [0u8, 0];
    assert!(!apply_virtual_affinity(&mut empty, 2, two));
    assert_eq!(empty, [0, 0]);
}

#[test]
fn online_file_contents_resolve_to_a_view() {
    assert!(!needs_extra_read(5));
    assert!(needs_extra_read(MAX_ONLINE_BYTES));
    let list = resolve_contents(b"0-1\n", None).unwrap();
    assert_eq!(list.count(), 2);
    assert!(list.is_contiguous_from_zero());
    let list = resolve_contents(b"0-3,8-11\n", Some(0)).unwrap();
    assert_eq!(list.count(), 8);
    assert_eq!(resolve_contents(b"0-1\n", Some(1)), Err(ResolveError::TooLarge));
    assert_eq!(resolve_contents(b"garbage", None), Err(ResolveError::Invalid));
    assert_eq!(resolve_contents(b"", None), Err(ResolveError::Invalid));
}

#[test]
fn stored_lookups_are_served_later() {
    assert_eq!(slot_after_lookup(0), SLOT_UNAVAILABLE);
    assert_eq!(read_slot(slot_after_lookup(0)), SlotReading::Unavailable);
    assert_eq!(read_slot(SLOT_RESOLVING), SlotReading::Pending);
    assert_eq!(read_slot(SLOT_UNRESOLVED), SlotReading::Pending);
    assert_eq!(slot_after_lookup(0x7f00_1000), 0x7f00_1000);
    assert_eq!(read_slot(slot_after_lookup(0x7f00_1000)), SlotReading::Resolved(0x7f00_1000));
    assert_eq!(lookup_result(0), None);
    assert_eq!(lookup_result(0x7f00_1000), Some(0x7f00_1000));
    assert_eq!(lookup_result(1), Some(1));
    assert_eq!(lookup_result(2), Some(2));
}

#[test]
fn hooks_answer_from_the_view_only_when_they_should() {
    assert!(count_hook_reads_view(false, true));
    assert!(!count_hook_reads_view(true, true));
    assert!(!count_hook_reads_view(false, false));
    assert!(affinity_hook_reads_view(0, false));
    assert!(!affinity_hook_reads_view(1234, false));
    assert!(!affinity_hook_reads_view(0, true));
    assert_eq!(count_hook_answer(parse_cpu_list(b"0-1\n").map_err(|_| ResolveError::Invalid)), Some(2));
    assert_eq!(count_hook_answer(Err(ResolveError::Open)), None);
    let widest = parse_cpu_list(b"0-2147483646").unwrap();
    assert_eq!(count_hook_answer(Ok(widest)), Some(i32::MAX));
}
