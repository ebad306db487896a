use virtual_memory_management::decode::{decode_address, physical_address};
use virtual_memory_management::{VmError, NUM_PAGES, PAGE_SIZE};

#[test]
fn test_decode_address() {
    let mut page_number: u32;
    let mut page_offset: u32;

    (page_number, page_offset) = decode_address(0).unwrap();
    assert!(page_number == 0 && page_offset == 0);

    (page_number, page_offset) = decode_address(1).unwrap();
    assert!(page_number == 0 && page_offset == 1);

    (page_number, page_offset) = decode_address(256).unwrap();
    assert!(page_number == 1 && page_offset == 0);

    (page_number, page_offset) = decode_address(256).unwrap();
    assert!(page_number == 1 && page_offset == 0);

    (page_number, page_offset) = decode_address(32768).unwrap();
    assert!(page_number == 128 && page_offset == 0);

    (page_number, page_offset) = decode_address(32769).unwrap();
    assert!(page_number == 128 && page_offset == 1);

    (page_number, page_offset) = decode_address(128).unwrap();
    assert!(page_number == 0 && page_offset == 128);

    (page_number, page_offset) = decode_address(65534).unwrap();
    assert!(page_number == 255 && page_offset == 254);

    (page_number, page_offset) = decode_address(33153).unwrap();
    assert!(page_number == 129 && page_offset == 129);

    (page_number, page_offset) = decode_address(16916).unwrap();
    assert!(page_number == 66 && page_offset == 20);

    (page_number, page_offset) = decode_address(62493).unwrap();
    assert!(page_number == 244 && page_offset == 29);
}

#[test]
fn test_decode_out_of_bounds() {
    // The first address past the addressable range, and everything above it.
    assert_eq!(decode_address(PAGE_SIZE * NUM_PAGES), Err(VmError::OutOfBounds));
    assert_eq!(decode_address(PAGE_SIZE * NUM_PAGES + 1), Err(VmError::OutOfBounds));
    assert_eq!(decode_address(u32::MAX), Err(VmError::OutOfBounds));
    // The last valid address still decodes.
    assert_eq!(decode_address(PAGE_SIZE * NUM_PAGES - 1), Ok((255, 255)));
}

#[test]
fn test_physical_address() {
    assert_eq!(physical_address(0, 0), 0);
    assert_eq!(physical_address(0, 255), 255);
    assert_eq!(physical_address(3, 1), 3 * 256 + 1);
    assert_eq!(physical_address(127, 255), 127 * 256 + 255);
}
