use escapepod::error::Error;
use escapepod::proto::{MappedFile, MemoryMapping, MemoryMappingData};
use escapepod::restore::{
    find_safe_address_space, make_restore_state, plan_new_mmaps, plan_trampoline,
    restore_region_len, restore_steps, sort_mappings, CurrentMmap, NewMmap, RestoreStep,
    TrampolineLayout,
};

fn buf_map(address: u64, len: u64, id: u32) -> MemoryMapping {
    MemoryMapping { address, len, perm: 5, data: MemoryMappingData::Buffer(id) }
}

#[test]
fn region_len_rounds_up_to_pages() {
    // 100 KiB is already page-aligned at 4096: one slack page is added.
    assert_eq!(restore_region_len(4096), 102400 + 4096);
    // At 64 KiB pages, 100 KiB rounds down to 64 KiB before the slack page.
    assert_eq!(restore_region_len(65536), 102400 - 36864 + 65536);
}

#[test]
fn sort_orders_by_address() {
    let v = vec![buf_map(0x9000, 0x1000, 2), buf_map(0x1000, 0x1000, 0), buf_map(0x5000, 0x1000, 1)];
    let s = sort_mappings(v);
    assert_eq!(s.len(), 3);
    assert_eq!(s[0].address, 0x1000);
    assert_eq!(s[1].address, 0x5000);
    assert_eq!(s[2].address, 0x9000);
}

#[test]
fn hole_is_found_inside_the_gap() {
    // Two mappings leaving exactly one gap large enough.
    let page: u64 = 4096;
    let space = restore_region_len(page);
    let first_end: u64 = 0x10000;
    let second_start = first_end + space + 2 * page + page;  // comfortably wide
    let maps = vec![
        buf_map(0x8000, first_end - 0x8000, 0),
        buf_map(second_start, 0x4000, 1),
    ];
    let (start, len) = find_safe_address_space(&maps, page).unwrap();
    assert_eq!(len, space);
    assert_eq!(start, first_end + page);
    assert_eq!(start % page, 0);
    // The chosen region does not overlap either mapping, and the base is
    // inside no mapping.
    for m in &maps {
        let m_end = m.address + m.len;
        assert!(start + len <= m.address || m_end <= start);
        assert!(!(m.address <= start && start < m_end));
    }
}

#[test]
fn no_gap_means_no_safe_hole() {
    let page: u64 = 4096;
    let maps = vec![buf_map(0x1000, 0x1000, 0), buf_map(0x3000, 0x1000, 1)];
    assert_eq!(find_safe_address_space(&maps, page).unwrap_err(), Error::NoSafeHole);
}

#[test]
fn new_mmaps_skip_the_vvar_region() {
    let maps = vec![
        buf_map(0x1000, 0x2000, 0),
        MemoryMapping { address: 0x4000, len: 0x1000, perm: 1, data: MemoryMappingData::KernelVvar },
        MemoryMapping {
            address: 0x8000,
            len: 0x1000,
            perm: 3,
            data: MemoryMappingData::File(MappedFile { fd: 7, offset: 512 }),
        },
    ];
    let plan = plan_new_mmaps(&maps);
    assert_eq!(plan.len(), 2);
    assert_eq!(plan[0], NewMmap { addr: 0x1000, len: 0x2000, prot: 5, flags: 0, fd: 0, offset: 0 });
    assert_eq!(plan[1], NewMmap { addr: 0x8000, len: 0x1000, prot: 3, flags: 0, fd: 7, offset: 512 });
}

#[test]
fn trampoline_layout_is_ordered_and_aligned() {
    let l = plan_trampoline(106496, 48, 3 * 16, 2 * 40, 900).unwrap();
    assert_eq!(l.state_off, 0);
    assert_eq!(l.current_off, 48);
    assert_eq!(l.new_off, 96);
    assert_eq!(l.code_off, 176);
    assert_eq!(l.stack_off, 1080);
    for off in [l.current_off, l.new_off, l.code_off, l.stack_off] {
        assert_eq!(off % 8, 0);
    }
    assert!(l.stack_off + 4096 <= 106496);
}

#[test]
fn trampoline_layout_rejects_a_tight_region() {
    assert!(plan_trampoline(4096, 48, 16, 40, 900).is_none());
}

#[test]
fn restore_state_points_into_the_region() {
    let l = TrampolineLayout { state_off: 0, current_off: 48, new_off: 96, code_off: 176, stack_off: 1080 };
    let st = make_restore_state(0x70000, &l, 3, 2, 9, 4242);
    assert_eq!(st.current_mmaps_addr, 0x70000 + 48);
    assert_eq!(st.new_mmaps_addr, 0x70000 + 96);
    assert_eq!(st.restore_fn, 0x70000 + 176);
    assert_eq!(st.stack_pointer, 0x70000 + 1080 + 4096);
    assert_eq!(st.current_mmaps_len, 3);
    assert_eq!(st.new_mmaps_len, 2);
    assert_eq!(st.fd, 9);
    assert_eq!(st.pid, 4242);
}

#[test]
fn restore_script_runs_in_stages() {
    let cur = vec![CurrentMmap { addr: 0x1000, len: 0x1000 }, CurrentMmap { addr: 0x3000, len: 0x2000 }];
    let new = vec![NewMmap { addr: 0x9000, len: 0x1000, prot: 5, flags: 0, fd: 0, offset: 0 }];
    let steps = restore_steps(&cur, &new, 8, 77);
    assert_eq!(
        steps,
        vec![
            RestoreStep::Unmap { addr: 0x1000, len: 0x1000 },
            RestoreStep::Unmap { addr: 0x3000, len: 0x2000 },
            RestoreStep::Mmap { addr: 0x9000, len: 0x1000, prot: 5, flags: 0, fd: 0, offset: 0 },
            RestoreStep::SignalReady { fd: 8 },
            RestoreStep::StopSelf { pid: 77 },
        ]
    );
}
