use veloct::dispatch::workgroup_count;

#[test]
fn workgroups_round_up() {
    assert_eq!(workgroup_count(0), 0);
    assert_eq!(workgroup_count(1), 1);
    assert_eq!(workgroup_count(256), 1);
    assert_eq!(workgroup_count(257), 2);
    assert_eq!(workgroup_count(1000), 4);
    assert_eq!(workgroup_count(u32::MAX - 255), 16_777_215);
}
