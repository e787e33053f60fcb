use t51core::registry::WeakBox;

#[test]
fn weak_box_gives_access_to_its_box() {
    let mut weak = WeakBox::new(Box::new(5u32));
    assert_eq!(**weak.get(), 5);
    **weak.get_mut() = 6;
    assert_eq!(**weak.get(), 6);
}

#[test]
fn weak_box_holds_unsized_values() {
    let boxed: Box<[u8]> = vec![1u8, 2, 3].into_boxed_slice();
    let weak: WeakBox<[u8]> = WeakBox::new(boxed);
    assert_eq!(&weak.get()[..], &[1, 2, 3]);
}
