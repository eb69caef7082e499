use vrp_search_core::solution::{ExtValue, Solution};

#[test]
fn extension_store_binds_and_replaces_values() {
    let mut s = Solution::new(vec![1, 2], 4);
    assert!(s.get_ext(0).is_none());
    s.set_ext(0, ExtValue::Int(42));
    assert_eq!(s.get_ext_int(0), Some(42));
    s.set_ext(0, ExtValue::Int(43));
    assert_eq!(s.get_ext_int(0), Some(43));
    s.set_ext(1, ExtValue::List(vec![7, 8]));
    assert_eq!(s.get_ext_list(1).unwrap(), &vec![7, 8]);
    assert_eq!(s.get_ext_int(0), Some(43));
}

#[test]
fn typed_accessors_report_absence_on_shape_mismatch() {
    let mut s = Solution::new(Vec::new(), 0);
    s.set_ext(5, ExtValue::List(vec![1]));
    assert_eq!(s.get_ext_int(5), None);
    assert!(s.get_ext_list(5).is_some());
    s.set_ext(5, ExtValue::Int(9));
    assert_eq!(s.get_ext_int(5), Some(9));
    assert!(s.get_ext_list(5).is_none());
}

#[test]
fn deep_copy_shares_no_state_with_the_original() {
    let mut original = Solution::new(vec![10, 20], 2);
    original.set_ext(3, ExtValue::List(vec![5]));
    let mut copy = original.deep_copy();
    assert_eq!(copy.fitness, vec![10, 20]);
    assert_eq!(copy.routes, 2);
    assert_eq!(copy.get_ext_list(3).unwrap(), &vec![5]);
    copy.fitness[0] = 999;
    copy.set_ext(3, ExtValue::Int(1));
    assert_eq!(original.fitness, vec![10, 20]);
    assert_eq!(original.get_ext_list(3).unwrap(), &vec![5]);
}
