use cpuhint::{build_contiguous_mask, parse_cpu_list, MaskError, ParseError};

#[test]
fn parses_contiguous_lists() {
    for (input, count) in [(b"0".as_slice(), 1), (b"0-3\n", 4), (b"\t0-7 \r\n", 8)] {
        let list = parse_cpu_list(input).unwrap();
        assert_eq!(list.count(), count);
        assert!(list.is_contiguous_from_zero());
    }
}

#[test]
fn parses_disjoint_lists_without_affinity_eligibility() {
    let list = parse_cpu_list(b"0-3,8-11").unwrap();
    assert_eq!(list.count(), 8);
    assert!(!list.is_contiguous_from_zero());

    let list = parse_cpu_list(b"5-5").unwrap();
    assert_eq!(list.count(), 1);
    assert!(!list.is_contiguous_from_zero());
}

#[test]
fn rejects_invalid_lists() {
    for (input, error) in [
        (b"".as_slice(), ParseError::Empty),
        (b"1-0".as_slice(), ParseError::ReversedRange),
        (b"0-3,3-4".as_slice(), ParseError::UnorderedOrOverlapping),
        (b"2,1".as_slice(), ParseError::UnorderedOrOverlapping),
        (b"0,".as_slice(), ParseError::InvalidCharacter),
        (b"0, 1".as_slice(), ParseError::InvalidNumber),
        (b"x".as_slice(), ParseError::InvalidNumber),
        (b"0-2147483647".as_slice(), ParseError::CountExceedsAbi),
        (b"18446744073709551616".as_slice(), ParseError::Overflow),
    ] {
        assert_eq!(parse_cpu_list(input), Err(error));
    }
}

#[test]
fn builds_and_clears_a_mask() {
    let mut mask = [0xff; 3];
    build_contiguous_mask(&mut mask, 10).unwrap();
    assert_eq!(mask, [0xff, 0x03, 0x00]);

    let mut aligned_mask = [0; 1];
    build_contiguous_mask(&mut aligned_mask, 8).unwrap();
    assert_eq!(aligned_mask, [0xff]);
}

#[test]
fn rejects_invalid_masks_without_modification() {
    let mut mask = [0xaa];
    assert_eq!(
        build_contiguous_mask(&mut mask, 9),
        Err(MaskError::BufferTooSmall)
    );
    assert_eq!(mask, [0xaa]);
    assert_eq!(
        build_contiguous_mask(&mut mask, 0),
        Err(MaskError::EmptyCpuCount)
    );
}
