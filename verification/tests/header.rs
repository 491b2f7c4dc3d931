use dtb_walker::{ConvertError, Dtb, HeaderError};

fn be(v: u32) -> [u8; 4] {
    v.to_be_bytes()
}

/// A minimal valid blob: header, an empty reserved-memory entry, a
/// structure section holding `{ }` for the root node, and a strings
/// section with a single name.
fn build_blob() -> Vec<u8> {
    let stru: Vec<u8> = [be(1), be(0), be(2), be(9)].concat();
    let strings = b"status\0".to_vec();
    assemble(&stru, &strings)
}

fn assemble(stru: &[u8], strings: &[u8]) -> Vec<u8> {
    let off_struct = 48u32;
    let size_struct = stru.len() as u32;
    let off_strings = off_struct + size_struct;
    let total = off_strings + strings.len() as u32;
    let mut v = Vec::new();
    for w in [
        0xd00dfeedu32,
        total,
        off_struct,
        off_strings,
        40,
        17,
        16,
        0,
        strings.len() as u32,
        size_struct,
    ] {
        v.extend_from_slice(&w.to_be_bytes());
    }
    v.extend_from_slice(&[0u8; 8]);
    v.extend_from_slice(stru);
    v.extend_from_slice(strings);
    v
}

fn patch(blob: &[u8], field: usize, value: u32) -> Vec<u8> {
    let mut v = blob.to_vec();
    v[field * 4..field * 4 + 4].copy_from_slice(&value.to_be_bytes());
    v
}

#[test]
fn header_valid_blob_accepted() {
    let blob = build_blob();
    let d = Dtb::from_slice(&blob).unwrap();
    assert_eq!(d.total_size(), blob.len());
}

#[test]
fn header_bad_magic() {
    let blob = patch(&build_blob(), 0, 0xfeedf00d);
    match Dtb::from_slice(&blob) {
        Err(ConvertError::Header(HeaderError::Magic(v))) => assert_eq!(v, 0xfeedf00d),
        other => panic!("unexpected: {:?}", other.err()),
    }
}

#[test]
fn header_old_version() {
    let blob = patch(&build_blob(), 5, 16);
    match Dtb::from_slice(&blob) {
        Err(ConvertError::Header(HeaderError::Version(v))) => assert_eq!(v, 16),
        other => panic!("unexpected: {:?}", other.err()),
    }
}

#[test]
fn header_bad_last_comp_version() {
    let blob = patch(&build_blob(), 6, 17);
    match Dtb::from_slice(&blob) {
        Err(ConvertError::Header(HeaderError::LastCompVersion(v))) => assert_eq!(v, 17),
        other => panic!("unexpected: {:?}", other.err()),
    }
}

#[test]
fn header_total_size_too_small() {
    let blob = patch(&build_blob(), 1, 24);
    match Dtb::from_slice(&blob) {
        Err(ConvertError::Header(HeaderError::TotalSize(v))) => assert_eq!(v, 24),
        other => panic!("unexpected: {:?}", other.err()),
    }
}

#[test]
fn header_memrsv_misaligned() {
    let blob = patch(&build_blob(), 4, 41);
    match Dtb::from_slice(&blob) {
        Err(ConvertError::Header(HeaderError::MemRsvMisaligned(v))) => assert_eq!(v, 1),
        other => panic!("unexpected: {:?}", other.err()),
    }
}

#[test]
fn header_memrsv_out_of_range() {
    let blob = patch(&build_blob(), 4, 36);
    match Dtb::from_slice(&blob) {
        Err(ConvertError::Header(HeaderError::MemRsvOffset { value, expected })) => {
            assert_eq!(value, 36);
            assert_eq!(expected.start, 40);
            assert_eq!(expected.end, build_blob().len() as u32);
        },
        other => panic!("unexpected: {:?}", other.err()),
    }
}

#[test]
fn header_struct_misaligned() {
    let blob = patch(&build_blob(), 2, 50);
    match Dtb::from_slice(&blob) {
        Err(ConvertError::Header(HeaderError::StructMisaligned(v))) => assert_eq!(v, 2),
        other => panic!("unexpected: {:?}", other.err()),
    }
}

#[test]
fn header_struct_offset_out_of_range() {
    let blob = patch(&build_blob(), 2, 20);
    match Dtb::from_slice(&blob) {
        Err(ConvertError::Header(HeaderError::StructOffset { value, expected })) => {
            assert_eq!(value, 20);
            assert_eq!(expected.start, 40);
        },
        other => panic!("unexpected: {:?}", other.err()),
    }
}

#[test]
fn header_struct_size_too_large() {
    let total = build_blob().len() as u32;
    let blob = patch(&build_blob(), 9, 32);
    match Dtb::from_slice(&blob) {
        Err(ConvertError::Header(HeaderError::StructSize { value, max })) => {
            assert_eq!(value, 32);
            assert_eq!(max, total - 40);
        },
        other => panic!("unexpected: {:?}", other.err()),
    }
}

#[test]
fn header_struct_content_bad_bookends() {
    // First structure word is NOP, not the root node's opening token; the
    // error carries that word and its offset.
    let mut blob = build_blob();
    blob[48..52].copy_from_slice(&4u32.to_be_bytes());
    match Dtb::from_slice(&blob) {
        Err(ConvertError::Header(HeaderError::StructContent { value, offset })) => {
            assert_eq!(value, 4);
            assert_eq!(offset, 48);
        },
        other => panic!("unexpected: {:?}", other.err()),
    }

    // Root name word not empty.
    let mut blob = build_blob();
    blob[52..56].copy_from_slice(&7u32.to_be_bytes());
    match Dtb::from_slice(&blob) {
        Err(ConvertError::Header(HeaderError::StructContent { value, offset })) => {
            assert_eq!(value, 7);
            assert_eq!(offset, 52);
        },
        other => panic!("unexpected: {:?}", other.err()),
    }

    // Last structure word is not the terminating token.
    let mut blob = build_blob();
    blob[60..64].copy_from_slice(&5u32.to_be_bytes());
    match Dtb::from_slice(&blob) {
        Err(ConvertError::Header(HeaderError::StructContent { value, offset })) => {
            assert_eq!(value, 5);
            assert_eq!(offset, 60);
        },
        other => panic!("unexpected: {:?}", other.err()),
    }

    // A section too small for the bookends carries the declared size at
    // the section's offset.
    let blob = patch(&build_blob(), 9, 8);
    match Dtb::from_slice(&blob) {
        Err(ConvertError::Header(HeaderError::StructContent { value, offset })) => {
            assert_eq!(value, 8);
            assert_eq!(offset, 48);
        },
        other => panic!("unexpected: {:?}", other.err()),
    }
}

#[test]
fn header_strings_offset_out_of_range() {
    let total = build_blob().len() as u32;
    let blob = patch(&build_blob(), 3, total);
    match Dtb::from_slice(&blob) {
        Err(ConvertError::Header(HeaderError::StringsOffset { value, expected })) => {
            assert_eq!(value, total);
            assert_eq!(expected.start, 64);
            assert_eq!(expected.end, total);
        },
        other => panic!("unexpected: {:?}", other.err()),
    }
}

#[test]
fn header_strings_size_too_large() {
    let total = build_blob().len() as u32;
    let blob = patch(&build_blob(), 8, 1000);
    match Dtb::from_slice(&blob) {
        Err(ConvertError::Header(HeaderError::StringsSize { value, max })) => {
            assert_eq!(value, 1000);
            assert_eq!(max, total - 64);
        },
        other => panic!("unexpected: {:?}", other.err()),
    }
}

#[test]
fn header_truncated_short_slice() {
    let blob = build_blob();
    assert!(matches!(
        Dtb::from_slice(&blob[..20]),
        Err(ConvertError::Truncated)
    ));
    assert!(matches!(
        Dtb::from_slice(&blob[..blob.len() - 1]),
        Err(ConvertError::Truncated)
    ));
}

#[test]
fn header_filtered_tolerates_version() {
    let blob = patch(&build_blob(), 5, 16);
    let d = Dtb::from_slice_filtered(&blob, |e: &HeaderError| {
        matches!(e, HeaderError::Version(16))
    });
    assert!(d.is_ok());
    let d = Dtb::from_slice_filtered(&blob, |e: &HeaderError| {
        matches!(e, HeaderError::Magic(_))
    });
    assert!(matches!(
        d,
        Err(ConvertError::Header(HeaderError::Version(16)))
    ));
}

#[test]
fn header_unchecked_skips_validation() {
    let blob = patch(&build_blob(), 0, 0x12345678);
    let d = Dtb::from_slice_unchecked(&blob).unwrap();
    assert_eq!(d.total_size(), blob.len());
    assert!(matches!(
        Dtb::from_slice_unchecked(&blob[..30]),
        Err(ConvertError::Truncated)
    ));
}
