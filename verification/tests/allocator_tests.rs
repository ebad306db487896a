use virtual_memory_management::decode::{decode_address, physical_address};
use virtual_memory_management::table::{get_frame_number, PageTableInfo};
use virtual_memory_management::{VmError, NUM_FRAMES};

#[test]
fn test_fill_frames_ascending() {
    // The first NUM_FRAMES distinct page references each fault and take
    // frames 0, 1, ..., NUM_FRAMES - 1 in order.
    let mut info = PageTableInfo::new();
    for i in 0..NUM_FRAMES {
        let page = 2 * i; // distinct pages, not simply 0..NUM_FRAMES
        let (frame, fault) = get_frame_number(&mut info, page, i).unwrap();
        assert_eq!(frame, i);
        assert!(fault);
    }
    for i in 0..NUM_FRAMES {
        assert!(!info.is_free(i));
        assert_eq!(info.recency(i), i);
        assert!(info.is_mapped(2 * i));
        assert_eq!(info.frame_of(2 * i), i);
    }
}

#[test]
fn test_eviction_lru() {
    // Fill every frame: page i -> frame i at time i.
    let mut info = PageTableInfo::new();
    for i in 0..NUM_FRAMES {
        let (frame, fault) = get_frame_number(&mut info, i, i).unwrap();
        assert_eq!(frame, i);
        assert!(fault);
    }
    // Refresh page 0, so frame 0 is no longer the oldest.
    let (frame, fault) = get_frame_number(&mut info, 0, NUM_FRAMES).unwrap();
    assert_eq!(frame, 0);
    assert!(!fault);
    // A fresh page now evicts frame 1, whose stamp (1) is the smallest.
    let (frame, fault) = get_frame_number(&mut info, 200, NUM_FRAMES + 1).unwrap();
    assert_eq!(frame, 1);
    assert!(fault);
    // The evicted page lost its mapping; the new page holds the frame.
    assert!(!info.is_mapped(1));
    assert!(info.is_mapped(200));
    assert_eq!(info.frame_of(200), 1);
    // Re-referencing the evicted page faults again, onto the next victim:
    // frame 2 now carries the smallest stamp (2).
    let (frame, fault) = get_frame_number(&mut info, 1, NUM_FRAMES + 2).unwrap();
    assert_eq!(frame, 2);
    assert!(fault);
    assert!(!info.is_mapped(2));
}

#[test]
fn test_eviction_tie_break_lowest_index() {
    // Give every frame the same stamp: among ties the lowest index loses.
    let mut info = PageTableInfo::new();
    for i in 0..NUM_FRAMES {
        let (frame, fault) = get_frame_number(&mut info, i, 7).unwrap();
        assert_eq!(frame, i);
        assert!(fault);
    }
    let (frame, fault) = get_frame_number(&mut info, 200, 8).unwrap();
    assert_eq!(frame, 0);
    assert!(fault);
    assert!(!info.is_mapped(0));
}

#[test]
fn test_hit_same_frame() {
    let mut info = PageTableInfo::new();
    let (f7, fault7) = get_frame_number(&mut info, 7, 0).unwrap();
    assert_eq!(f7, 0);
    assert!(fault7);
    let (f9, fault9) = get_frame_number(&mut info, 9, 1).unwrap();
    assert_eq!(f9, 1);
    assert!(fault9);
    // Re-referencing page 7 is a hit on the same frame, and only that
    // frame's recency moves.
    let (frame, fault) = get_frame_number(&mut info, 7, 2).unwrap();
    assert_eq!(frame, 0);
    assert!(!fault);
    assert_eq!(info.recency(0), 2);
    assert_eq!(info.recency(1), 1);
    assert!(info.is_mapped(7));
    assert!(info.is_mapped(9));
    assert_eq!(info.frame_of(7), 0);
    assert_eq!(info.frame_of(9), 1);
    assert!(info.is_free(2));
}

#[test]
fn test_repeated_hits() {
    let mut info = PageTableInfo::new();
    let (frame, fault) = get_frame_number(&mut info, 3, 0).unwrap();
    assert_eq!(frame, 0);
    assert!(fault);
    for t in 1..6 {
        let (frame, fault) = get_frame_number(&mut info, 3, t).unwrap();
        assert_eq!(frame, 0);
        assert!(!fault);
        assert_eq!(info.recency(0), t);
    }
    assert_eq!(info.frame_of(3), 0);
    assert!(!info.is_free(0));
    assert!(info.is_free(1));
}

#[test]
fn test_invalid_page_number() {
    let mut info = PageTableInfo::new();
    assert_eq!(get_frame_number(&mut info, 256, 0), Err(VmError::InvalidPageNumber));
    assert_eq!(get_frame_number(&mut info, u32::MAX, 0), Err(VmError::InvalidPageNumber));
    // The rejected call left the table untouched: the next reference still
    // takes frame 0.
    let (frame, fault) = get_frame_number(&mut info, 0, 0).unwrap();
    assert_eq!(frame, 0);
    assert!(fault);
}

#[test]
fn test_end_to_end_first_reference() {
    // Address 256 decodes to page 1, offset 0; as the first reference it
    // faults into frame 0, so the physical address is 0 * 256 + 0 = 0.
    let (page, offset) = decode_address(256).unwrap();
    assert_eq!(page, 1);
    assert_eq!(offset, 0);
    let mut info = PageTableInfo::new();
    let (frame, fault) = get_frame_number(&mut info, page, 0).unwrap();
    assert_eq!(frame, 0);
    assert!(fault);
    assert_eq!(physical_address(frame, offset), 0);
}

#[test]
fn test_end_to_end_page_128() {
    // Address 32769 decodes to page 128, offset 1; once page 128 sits in
    // frame F the physical address is F * 256 + 1.
    let (page, offset) = decode_address(32769).unwrap();
    assert_eq!(page, 128);
    assert_eq!(offset, 1);
    let mut info = PageTableInfo::new();
    for i in 0..3 {
        get_frame_number(&mut info, i, i).unwrap();
    }
    let (frame, fault) = get_frame_number(&mut info, page, 3).unwrap();
    assert_eq!(frame, 3);
    assert!(fault);
    assert_eq!(physical_address(frame, offset), 3 * 256 + 1);
}
