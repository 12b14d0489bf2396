use os_core::mm::{translated_byte_buffer, write_user_bytes, MapPermission, MemorySet, PhysRange};

fn rw() -> MapPermission {
    MapPermission { read: true, write: true, execute: false, user: true }
}

fn ro() -> MapPermission {
    MapPermission { read: true, write: false, execute: false, user: true }
}

#[test]
fn range_query_sees_mapped_pages() {
    let mut ms = MemorySet::new_bare();
    assert!(!ms.check_vpn_range(0, 100));
    ms.insert_framed_area(10, 13, rw(), vec![5, 6, 7]);
    assert!(ms.check_vpn_range(12, 20));
    assert!(ms.check_vpn_range(0, 11));
    assert!(!ms.check_vpn_range(13, 20));
    assert!(!ms.check_vpn_range(0, 10));
    assert!(!ms.check_vpn_range(11, 11));
}

#[test]
fn translate_finds_frame_and_rights() {
    let mut ms = MemorySet::new_bare();
    ms.insert_framed_area(10, 13, ro(), vec![5, 6, 7]);
    let e = ms.translate(11).unwrap();
    assert_eq!(e.ppn, 6);
    assert_eq!(e.perm, ro());
    assert!(ms.translate(13).is_none());
    assert!(ms.translate(9).is_none());
}

#[test]
fn exact_match_only_removal() {
    let mut ms = MemorySet::new_bare();
    ms.insert_framed_area(10, 13, rw(), vec![5, 6, 7]);
    ms.insert_framed_area(20, 21, rw(), vec![8]);
    assert_eq!(ms.find_exact_match(10, 12), None);
    assert_eq!(ms.remove_area(10, 12), None);
    assert_eq!(ms.areas.len(), 2);
    assert_eq!(ms.find_exact_match(20, 21), Some(1));
    assert_eq!(ms.remove_area(10, 13), Some(vec![5, 6, 7]));
    assert_eq!(ms.areas.len(), 1);
    assert!(ms.translate(10).is_none());
    assert_eq!(ms.translate(20).unwrap().ppn, 8);
}

#[test]
fn bridge_inside_one_page_gives_one_piece() {
    let mut ms = MemorySet::new_bare();
    ms.insert_framed_area(1, 3, rw(), vec![7, 4]);
    let r = translated_byte_buffer(&ms, 0x1010, 16, true).unwrap();
    assert_eq!(r, vec![PhysRange { pa: 7 * 4096 + 0x10, len: 16 }]);
}

#[test]
fn bridge_across_one_boundary_gives_two_pieces() {
    let mut ms = MemorySet::new_bare();
    ms.insert_framed_area(1, 3, rw(), vec![7, 4]);
    let r = translated_byte_buffer(&ms, 0x1ff8, 16, true).unwrap();
    assert_eq!(
        r,
        vec![PhysRange { pa: 7 * 4096 + 0xff8, len: 8 }, PhysRange { pa: 4 * 4096, len: 8 }]
    );
    let total: usize = r.iter().map(|p| p.len).sum();
    assert_eq!(total, 16);
}

#[test]
fn bridge_rejects_unmapped_and_readonly_pages() {
    let mut ms = MemorySet::new_bare();
    ms.insert_framed_area(1, 2, rw(), vec![7]);
    ms.insert_framed_area(3, 4, ro(), vec![8]);
    assert!(translated_byte_buffer(&ms, 0x1ff8, 16, false).is_none());
    assert!(translated_byte_buffer(&ms, 0x3000, 4, true).is_none());
    assert!(translated_byte_buffer(&ms, 0x3000, 4, false).is_some());
    let kernel_only = MapPermission { read: true, write: true, execute: false, user: false };
    ms.insert_framed_area(5, 6, kernel_only, vec![9]);
    assert!(translated_byte_buffer(&ms, 0x5000, 4, false).is_none());
}

#[test]
fn bridge_of_empty_range_is_empty() {
    let ms = MemorySet::new_bare();
    assert_eq!(translated_byte_buffer(&ms, 0x1234, 0, true), Some(vec![]));
}

#[test]
fn cross_page_record_round_trips_through_pieces() {
    let mut ms = MemorySet::new_bare();
    ms.insert_framed_area(1, 3, rw(), vec![2, 0]);
    let mut mem = vec![0u8; 3 * 4096];
    let data: Vec<u8> = (1..=24).collect();
    let r = translated_byte_buffer(&ms, 0x1ff4, 24, true).unwrap();
    assert_eq!(r.len(), 2);
    write_user_bytes(&mut mem, &r, &data);
    let mut back = Vec::new();
    for p in &r {
        back.extend_from_slice(&mem[p.pa..p.pa + p.len]);
    }
    assert_eq!(back, data);
    assert_eq!(mem[2 * 4096 + 0xff4], 1);
    assert_eq!(mem[0], 13);
}
