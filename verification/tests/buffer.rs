use wren_engine::wren::utils::{power_of_2_ceil, Buffer};
use wren_engine::wren::{Configuration, VM};

#[test]
fn capacity_grows_to_powers_of_two() {
    let vm = VM::new(&Configuration::default());
    let mut b: Buffer<u8> = Buffer::new();
    let mut caps = Vec::new();
    for i in 0..9u8 {
        b.write(&vm, i);
        caps.push(b.capacity);
    }
    assert_eq!(caps, vec![1, 2, 4, 4, 8, 8, 8, 8, 16]);
    assert_eq!(b.count, 9);
    assert_eq!(b.data, (0..9u8).collect::<Vec<_>>());
    b.clear(&vm);
    assert_eq!((b.count, b.capacity), (0, 0));
    assert!(b.data.is_empty());
}

#[test]
fn powers_of_two() {
    assert_eq!(power_of_2_ceil(1), 1);
    assert_eq!(power_of_2_ceil(2), 2);
    assert_eq!(power_of_2_ceil(3), 4);
    assert_eq!(power_of_2_ceil(17), 32);
    assert_eq!(power_of_2_ceil(0x4000_0000), 0x4000_0000);
}
