use t51core::sentinel::Take;

#[test]
fn test_deref() {
    let sentinel = Take::new(5);

    assert_eq!(*sentinel.get(), 5);
}

#[test]
fn sentinel_test_deref_mut() {
    let mut sentinel = Take::new(5);

    *sentinel.get_mut() = 1;

    assert_eq!(*sentinel.get(), 1);
}

#[test]
fn test_take_put() {
    let mut sentinel = Take::new(5);

    let value = sentinel.take();

    assert_eq!(value, 5);
    assert!(sentinel.is_taken());

    sentinel.put(1);

    assert_eq!(*sentinel.get(), 1)
}

#[test]
fn take_is_not_taken_after_new_and_put() {
    let mut sentinel = Take::new(String::from("a"));
    assert!(!sentinel.is_taken());
    let s = sentinel.take();
    assert_eq!(s, "a");
    sentinel.put(String::from("b"));
    assert!(!sentinel.is_taken());
    assert_eq!(sentinel.get().as_str(), "b");
}

#[test]
fn taken_tracks_the_last_call() {
    let mut sentinel = Take::new(1);
    assert!(!sentinel.is_taken());
    let value = sentinel.take();
    assert!(sentinel.is_taken());
    sentinel.put(value + 1);
    assert!(!sentinel.is_taken());
    assert_eq!(sentinel.take(), 2);
    assert!(sentinel.is_taken());
}
