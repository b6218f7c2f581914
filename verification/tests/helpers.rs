use turbofile::limits::helpers_for;

#[test]
fn helper_count_follows_hardware_threads() {
    assert_eq!(helpers_for(1), 2);
    assert_eq!(helpers_for(8), 2);
    assert_eq!(helpers_for(10), 3);
    assert_eq!(helpers_for(12), 4);
    assert_eq!(helpers_for(32), 4);
}
