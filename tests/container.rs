use spatial_tree::partition::Container;

#[test]
fn vec_container_access() {
    let mut v: Vec<u32> = vec![10, 20, 30];
    assert_eq!(Container::get(&v, 0), Some(&10));
    assert_eq!(Container::get(&v, 2), Some(&30));
    assert_eq!(Container::get(&v, 3), None);
    for i in 0..3 {
        assert_eq!(Container::index(&v, i), Container::get(&v, i).unwrap());
    }
    *Container::index_mut(&mut v, 1) = 21;
    assert_eq!(v, vec![10, 21, 30]);
    let expected = *Container::get(&v, 2).unwrap();
    assert_eq!(*Container::index_mut(&mut v, 2), expected);
}

#[test]
fn vec_container_visits_in_order() {
    let mut v: Vec<u32> = vec![3, 1, 2];
    let seen = Container::for_each(&v, |x: &u32| *x * 10);
    assert_eq!(seen, vec![30, 10, 20]);
    Container::for_each_mut(&mut v, |x: &u32| *x + 1);
    assert_eq!(v, vec![4, 2, 3]);
    let empty: Vec<u32> = Vec::new();
    assert_eq!(Container::for_each(&empty, |x: &u32| *x), Vec::<u32>::new());
}

#[test]
fn pair_container_access() {
    let mut a: [u32; 2] = [7, 9];
    assert_eq!(Container::get(&a, 0), Some(&7));
    assert_eq!(Container::get(&a, 1), Some(&9));
    assert_eq!(Container::get(&a, 2), None);
    assert_eq!(Container::index(&a, 1), Container::get(&a, 1).unwrap());
    *Container::index_mut(&mut a, 0) = 8;
    assert_eq!(a, [8, 9]);
}

#[test]
fn pair_container_visits_in_order() {
    let mut a: [u32; 2] = [5, 6];
    assert_eq!(Container::for_each(&a, |x: &u32| *x), vec![5, 6]);
    Container::for_each_mut(&mut a, |x: &u32| *x * 2);
    assert_eq!(a, [10, 12]);
}
