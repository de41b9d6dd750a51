use dynec::OptVec;

#[test]
fn optvec_starts_empty() {
    let vec: OptVec<u8> = OptVec::default();
    assert!(vec.is_empty());
    assert_eq!(vec.len(), 0);
    assert_eq!(vec.get(0), None);
}

#[test]
fn optvec_replace_reads_back() {
    let mut vec: OptVec<String> = OptVec::repeat_none(3);
    assert_eq!(vec.len(), 3);
    assert!(!vec.is_empty());
    assert_eq!(vec.get(1), None);

    assert_eq!(vec.replace(1, Some(String::from("a"))), None);
    assert_eq!(vec.get(1), Some(&String::from("a")));
    assert_eq!(vec.get(0), None);

    assert_eq!(vec.replace(1, Some(String::from("b"))), Some(String::from("a")));
    assert_eq!(vec.replace(1, None), Some(String::from("b")));
    assert_eq!(vec.get(1), None);
}

#[test]
fn optvec_replace_past_end_changes_nothing() {
    let mut vec: OptVec<u32> = OptVec::repeat_none(2);
    assert_eq!(vec.replace(2, Some(9)), None);
    assert_eq!(vec.len(), 2);
    assert_eq!(vec.get(2), None);
}

#[test]
fn optvec_resizes_only_upwards() {
    let mut vec: OptVec<u32> = OptVec::new();
    vec.resize_at_least(4);
    assert_eq!(vec.len(), 4);
    vec.replace(3, Some(1));
    vec.resize_at_least(2);
    assert_eq!(vec.len(), 4);
    assert_eq!(vec.get(3), Some(&1));
    vec.resize_at_least(6);
    assert_eq!(vec.len(), 6);
    assert_eq!(vec.get(5), None);
    assert_eq!(vec.get(3), Some(&1));
}

#[test]
fn optvec_get_mut_updates_slot() {
    let mut vec: OptVec<u32> = OptVec::repeat_none(2);
    assert!(vec.get_mut(0).is_none());
    vec.replace(0, Some(10));
    *vec.get_mut(0).expect("slot 0 is set") += 5;
    assert_eq!(vec.get(0), Some(&15));
    assert!(vec.get_mut(4).is_none());
}
