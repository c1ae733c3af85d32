use ros::memory::paging::page_table::TableMemory;

#[test]
fn tables_start_empty_and_keep_what_is_written() {
    let mut memory = TableMemory::new();
    assert!(!memory.contains(0x1000));
    memory.install_empty(0x1000);
    memory.install_empty(0x3000);
    assert!(memory.contains(0x1000));
    assert!(memory.contains(0x3000));
    assert!(!memory.contains(0x2000));
    for index in [0usize, 1, 255, 511] {
        assert_eq!(memory.read(0x1000, index), (0, 0));
    }
    memory.write(0x1000, 511, 0x000f_ffff_ffff_f000, 0x8000_0000_0000_0fff);
    memory.write(0x1000, 0, 0x5000, 3);
    memory.write(0x3000, 0, 0x7000, 1);
    assert_eq!(memory.read(0x1000, 511), (0x000f_ffff_ffff_f000, 0x8000_0000_0000_0fff));
    assert_eq!(memory.read(0x1000, 0), (0x5000, 3));
    assert_eq!(memory.read(0x1000, 1), (0, 0));
    assert_eq!(memory.read(0x3000, 0), (0x7000, 1));
    assert_eq!(memory.read(0x3000, 511), (0, 0));
    memory.write(0x1000, 0, 0, 0x80);
    assert_eq!(memory.read(0x1000, 0), (0, 0x80));
    memory.clear(0x1000, 511);
    assert_eq!(memory.read(0x1000, 511), (0, 0));
    assert_eq!(memory.read(0x1000, 0), (0, 0x80));
    assert_eq!(memory.read(0x3000, 0), (0x7000, 1));
}
