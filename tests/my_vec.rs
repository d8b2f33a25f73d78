use data_structures::MyVec;

#[test]
fn main_test_push_and_get() {
    let mut vec = MyVec::new();
    vec.push(10);
    vec.push(20);
    assert_eq!(vec.get(0), Some(&10));
    assert_eq!(vec.get(1), Some(&20));
    assert_eq!(vec.get(2), None);
}

#[test]
fn lib_test_push_and_get() {
    let mut vec = MyVec::new();
    vec.push(10);
    vec.push(20);
    assert_eq!(vec.get(0), Some(&10));
    assert_eq!(vec.get(1), Some(&20));
    assert_eq!(vec.get(2), None);
}

#[test]
fn get_on_empty_vec_is_none() {
    let vec = MyVec::new();
    assert_eq!(vec.get(0), None);
    assert_eq!(vec.get(usize::MAX), None);
}

#[test]
fn push_keeps_order_and_duplicates() {
    let mut vec = MyVec::new();
    vec.push(i32::MIN);
    vec.push(7);
    vec.push(7);
    vec.push(i32::MAX);
    assert_eq!(vec.get(0), Some(&i32::MIN));
    assert_eq!(vec.get(1), Some(&7));
    assert_eq!(vec.get(2), Some(&7));
    assert_eq!(vec.get(3), Some(&i32::MAX));
    assert_eq!(vec.get(4), None);
}
