//! Output buffers.

use colorthief::buffer::Buffer;

#[test]
fn array_buffer_push_until_full() {
    let mut buf: [Option<u32>; 3] = [const { None }; 3];
    assert_eq!(buf.try_push(1), None);
    assert_eq!(buf.try_push(2), None);
    assert_eq!(buf.try_push(3), None);
    assert_eq!(buf.try_push(4), Some(4));
    assert_eq!(buf.try_push(5), Some(5));
    assert_eq!(buf, [Some(1), Some(2), Some(3)]);
}

#[test]
fn slice_buffer_push_until_full() {
    let mut underlying: [Option<&'static str>; 2] = [const { None }; 2];
    let mut buf: &mut [Option<&str>] = &mut underlying;
    assert_eq!(buf.try_push("a"), None);
    assert_eq!(buf.try_push("b"), None);
    assert_eq!(buf.try_push("c"), Some("c"));
    assert_eq!(underlying, [Some("a"), Some("b")]);
}

#[test]
fn vec_buffer_is_unbounded() {
    let mut buf: Vec<u32> = Vec::new();
    for i in 0..1000 {
        assert_eq!(buf.try_push(i), None);
    }
    assert_eq!(buf.len(), 1000);
    assert_eq!(<Vec<u32> as Buffer<u32>>::max_cap(), None);
}

#[test]
fn max_cap_constants_are_correct() {
    assert_eq!(<[Option<u32>; 8] as Buffer<u32>>::max_cap(), Some(8));
    assert_eq!(<[Option<u32>; 0] as Buffer<u32>>::max_cap(), Some(0));
    assert_eq!(<&mut [Option<u32>] as Buffer<u32>>::max_cap(), None);
}

#[test]
fn a_push_takes_the_first_empty_slot() {
    let mut buf: [Option<u32>; 4] = [Some(7), None, Some(9), None];
    assert_eq!(buf.try_push(8), None);
    assert_eq!(buf, [Some(7), Some(8), Some(9), None]);
    assert_eq!(buf.try_push(10), None);
    assert_eq!(buf.try_push(11), Some(11));
    let mut none: [Option<u32>; 0] = [];
    assert_eq!(none.try_push(1), Some(1));
}
