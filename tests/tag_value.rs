use lualex::TagValue;

#[test]
fn tag_value_round_trip() {
    let mut t = TagValue::new(0x1234_5678_9abc_def0);
    assert!(t.u64_equal(0x1234_5678_9abc_def0));
    assert_eq!(t.get_lo_u32(), 0x9abc_def0);
    t.set_u64(7);
    assert_eq!(t.get_u64(), 7);
    assert!(!t.u64_equal(8));
}
