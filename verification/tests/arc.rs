use lock_free::arc::{drop_frees, unwrapped, Arc};

#[test]
fn arc_clone_counts() {
    let (a, mut inner) = Arc::new(String::from("data"));
    assert_eq!(inner.strong_count(), 1);
    let b = a.clone_handle(&mut inner);
    assert_eq!(inner.strong_count(), 2);
    let c = a.clone_handle(&mut inner);
    assert_eq!(inner.strong_count(), 3);
    assert_eq!(a.get(&inner), "data");
    assert_eq!(b.get(&inner), c.get(&inner));
}

#[test]
fn arc_drop_counts() {
    let (a, mut inner) = Arc::new(vec![1u8, 2]);
    let b = a.clone_handle(&mut inner);
    let c = a.clone_handle(&mut inner);
    assert_eq!(inner.strong_count(), 3);
    assert!(!a.drop_handle(&mut inner));
    assert_eq!(inner.strong_count(), 2);
    assert!(!b.drop_handle(&mut inner));
    assert_eq!(inner.strong_count(), 1);
    assert_eq!(c.get(&inner), &vec![1u8, 2]);
    assert!(c.drop_handle(&mut inner));
    assert_eq!(inner.strong_count(), 0);
}

#[test]
fn arc_try_unwrap() {
    let data = String::from("only");
    let (a, mut inner) = Arc::new(data.clone());
    let b = a.clone_handle(&mut inner);
    let a = Arc::try_unwrap(a, &mut inner).unwrap_err();
    let b = Arc::try_unwrap(b, &mut inner).unwrap_err();
    assert_eq!(inner.strong_count(), 2);
    a.drop_handle(&mut inner);
    assert_eq!(Arc::try_unwrap(b, &mut inner).ok(), Some(data));
    assert_eq!(inner.strong_count(), 0);
}

#[test]
fn arc_into_inner() {
    let (a, mut inner) = Arc::new(42u64);
    assert_eq!(Arc::into_inner(a, &mut inner), 42);
}

#[test]
fn arc_decisions() {
    assert!(drop_frees(1));
    assert!(!drop_frees(2));
    assert!(unwrapped(1));
    assert!(!unwrapped(0));
    assert!(!unwrapped(3));
}
