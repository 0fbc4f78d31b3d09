use rcore_os::config::page_count;
use rcore_os::mm::{permission_from_prot, MapArea, MapPermission, MemorySet, VirtAddr, VirtPageNum};
use rcore_os::task::id::RecycleAllocator;

#[test]
fn page_rounding() {
    assert_eq!(VirtAddr(0).floor(), VirtPageNum(0));
    assert_eq!(VirtAddr(0).ceil(), VirtPageNum(0));
    assert_eq!(VirtAddr(4095).floor(), VirtPageNum(0));
    assert_eq!(VirtAddr(4095).ceil(), VirtPageNum(1));
    assert_eq!(VirtAddr(4096).ceil(), VirtPageNum(1));
    assert_eq!(VirtAddr(4097).ceil(), VirtPageNum(2));
    assert_eq!(page_count(0), 0);
    assert_eq!(page_count(1), 1);
    assert_eq!(page_count(4096), 1);
    assert_eq!(page_count(4097), 2);
}

#[test]
fn addresses_are_cut_to_sv39_width() {
    assert_eq!(VirtAddr::from_usize(0x80_0000_1000), VirtAddr(0x1000));
    assert_eq!(VirtAddr::from_usize(usize::MAX), VirtAddr(0x7f_ffff_ffff));
    assert_eq!(VirtPageNum::from_usize(0x800_0001), VirtPageNum(1));
    assert_eq!(VirtAddr::from_vpn(VirtPageNum(3)), VirtAddr(0x3000));
}

#[test]
fn permissions_from_prot() {
    assert_eq!(permission_from_prot(1).bits, MapPermission::U | MapPermission::R);
    assert_eq!(permission_from_prot(2).bits, MapPermission::U | MapPermission::W);
    assert_eq!(permission_from_prot(4).bits, MapPermission::U | MapPermission::X);
    assert_eq!(permission_from_prot(7).bits, 0x1e);
}

#[test]
fn memory_set_areas() {
    let mut ms = MemorySet::new_bare(3);
    assert_eq!(ms.token(), 3);
    ms.insert_framed_area(VirtAddr(0x1000), VirtAddr(0x3001), MapPermission { bits: 0x12 });
    assert!(ms.translate(VirtPageNum(0)).is_none());
    assert!(ms.translate(VirtPageNum(1)).is_some());
    assert!(ms.translate(VirtPageNum(3)).is_some());
    assert!(ms.translate(VirtPageNum(4)).is_none());
    // unmapping the middle splits the area
    ms.munmap(VirtAddr(0x2000), VirtAddr(0x3000));
    assert!(ms.translate(VirtPageNum(1)).is_some());
    assert!(ms.translate(VirtPageNum(2)).is_none());
    assert!(ms.translate(VirtPageNum(3)).is_some());
    let copy = MemorySet::from_existed_user(&ms, 4);
    assert_eq!(copy.token(), 4);
    assert!(copy.translate(VirtPageNum(3)).is_some());
    ms.remove_area_with_start_vpn(VirtPageNum(1));
    assert!(ms.translate(VirtPageNum(1)).is_none());
    assert!(ms.translate(VirtPageNum(3)).is_some());
}

#[test]
fn translate_reports_the_area_permission() {
    let ms = MemorySet::from_areas(
        0,
        vec![MapArea { start_vpn: 2, end_vpn: 5, perm: 0x1a }, MapArea { start_vpn: 4, end_vpn: 8, perm: 0x12 }],
    );
    assert_eq!(ms.translate(VirtPageNum(2)).unwrap().bits, 0x1b);
    // where areas overlap, the first one decides
    assert_eq!(ms.translate(VirtPageNum(4)).unwrap().bits, 0x1b);
    assert_eq!(ms.translate(VirtPageNum(7)).unwrap().bits, 0x13);
    assert!(ms.translate(VirtPageNum(7)).unwrap().is_valid());
    assert!(ms.translate(VirtPageNum(8)).is_none());
}

#[test]
fn heap_area_grows_and_shrinks() {
    let mut ms = MemorySet::from_areas(0, vec![MapArea { start_vpn: 4, end_vpn: 4, perm: 0x16 }]);
    assert!(ms.append_to(VirtAddr(0x4000), VirtAddr(0x5800)));
    assert!(ms.translate(VirtPageNum(5)).is_some());
    assert!(ms.shrink_to(VirtAddr(0x4000), VirtAddr(0x5000)));
    assert!(ms.translate(VirtPageNum(5)).is_none());
    assert!(!ms.append_to(VirtAddr(0x9000), VirtAddr(0xa000)));
}

#[test]
fn recycle_allocator_reuses_ids() {
    let mut a = RecycleAllocator::new();
    assert_eq!(a.allocate(), 0);
    assert_eq!(a.allocate(), 1);
    a.deallocate(0);
    assert_eq!(a.allocate(), 0);
    assert_eq!(a.allocate(), 2);
}
