use extra_collections::Arr;

#[test]
fn new_array_is_uninitialised() {
    let arr: Arr<u8, 4> = Arr::new();
    for i in 0..4 {
        assert_eq!(arr.get(i), None);
    }
}

#[test]
fn init_then_get() {
    let mut arr: Arr<String, 3> = Arr::new_on_stack();
    arr.init(1, String::from("one"));
    assert_eq!(arr.get(0), None);
    assert_eq!(arr.get(1).map(|s| s.as_str()), Some("one"));
    assert_eq!(arr.get(2), None);
    assert_eq!(arr[1], "one");
}

#[test]
fn init_replaces() {
    let mut arr: Arr<u8, 2> = Arr::new_on_heap();
    arr.init(0, 1);
    arr.init(0, 2);
    assert_eq!(arr.get(0), Some(&2));
}

#[test]
fn get_mut_writes_through_and_skips_uninitialised() {
    let mut arr: Arr<u8, 3> = Arr::default();
    assert_eq!(arr.get_mut(2), None);
    arr.init(2, 5);
    if let Some(x) = arr.get_mut(2) {
        *x = 9;
    }
    assert_eq!(arr.get(2), Some(&9));
}

#[test]
fn slices_show_every_slot() {
    let mut arr: Arr<u8, 3> = Arr::new();
    arr.init(0, 4);
    arr.init(2, 6);
    assert_eq!(arr.as_raw_slice(), &[Some(4), None, Some(6)]);
    arr.as_raw_slice_mut()[1] = Some(5);
    assert_eq!(arr.get(1), Some(&5));
    let boxed = arr.into_boxed_slice();
    assert_eq!(&*boxed, &[Some(4), Some(5), Some(6)]);
}
