use remus::reg::Register;

#[test]
fn reg_size_of_works() {
    assert_eq!(std::mem::size_of::<Register<u8>>(), 1);
    assert_eq!(std::mem::size_of::<Register<u16>>(), 2);
    assert_eq!(std::mem::size_of::<Register<u32>>(), 4);
    assert_eq!(std::mem::size_of::<Register<u64>>(), 8);
    assert_eq!(std::mem::size_of::<Register<u128>>(), 16);
}

#[test]
fn reg_new_works() {
    assert_eq!(Register::<u8>::new().value(), 0_u8);
    assert_eq!(Register::<u16>::new().value(), 0_u16);
    assert_eq!(Register::<u32>::new().value(), 0_u32);
    assert_eq!(Register::<u64>::new().value(), 0_u64);
    assert_eq!(Register::<u128>::new().value(), 0_u128);
}

#[test]
fn reg_from_works() {
    assert_eq!(Register::<u8>::from(0x01_u8).value(), 0x01_u8);
    assert_eq!(Register::<u16>::from(0x0123_u16).value(), 0x0123_u16);
    assert_eq!(Register::<u32>::from(0x01234567_u32).value(), 0x01234567_u32);
    assert_eq!(
        Register::<u64>::from(0x0123456789abcdef_u64).value(),
        0x0123456789abcdef_u64
    );
    assert_eq!(
        Register::<u128>::from(0x0123456789abcdef0123456789abcdef_u128).value(),
        0x0123456789abcdef0123456789abcdef_u128
    );
}

#[test]
fn deref_works() {
    let r8 = Register::<u8>::from(0x01_u8);
    assert_eq!(r8.value(), 0x01_u8);
    let r16 = Register::<u16>::from(0x0123_u16);
    assert_eq!(r16.value(), 0x0123_u16);
    let r32 = Register::<u32>::from(0x01234567_u32);
    assert_eq!(r32.value(), 0x01234567_u32);
    let r64 = Register::<u64>::from(0x0123456789abcdef_u64);
    assert_eq!(r64.value(), 0x0123456789abcdef_u64);
    let r128 = Register::<u128>::from(0x0123456789abcdef0123456789abcdef_u128);
    assert_eq!(r128.value(), 0x0123456789abcdef0123456789abcdef_u128);
}

#[test]
fn deref_mut_works() {
    let mut r8 = Register::<u8>::new();
    r8.set_value(0x01_u8);
    assert_eq!(r8.value(), 0x01_u8);
    let mut r16 = Register::<u16>::new();
    r16.set_value(0x0123_u16);
    assert_eq!(r16.value(), 0x0123_u16);
    let mut r32 = Register::<u32>::new();
    r32.set_value(0x01234567_u32);
    assert_eq!(r32.value(), 0x01234567_u32);
    let mut r64 = Register::<u64>::new();
    r64.set_value(0x0123456789abcdef_u64);
    assert_eq!(r64.value(), 0x0123456789abcdef_u64);
    let mut r128 = Register::<u128>::new();
    r128.set_value(0x0123456789abcdef0123456789abcdef_u128);
    assert_eq!(r128.value(), 0x0123456789abcdef0123456789abcdef_u128);
}

#[test]
fn reg_device_contains_works() {
    (0..1).for_each(|addr| assert!(Register::<u8>::new().contains(addr)));
    (0..2).for_each(|addr| assert!(Register::<u16>::new().contains(addr)));
    (0..4).for_each(|addr| assert!(Register::<u32>::new().contains(addr)));
    (0..8).for_each(|addr| assert!(Register::<u64>::new().contains(addr)));
    (0..16).for_each(|addr| assert!(Register::<u128>::new().contains(addr)));
    assert!(!Register::<u16>::new().contains(2));
    assert_eq!(Register::<u32>::new().len(), 4);
}

#[test]
fn reg_device_read_works() {
    assert_eq!(Register::<u8>::from(0x01_u8).read(0), 0x01);
    assert_eq!(Register::<u16>::from(0x0123_u16).read(1), 0x01);
    assert_eq!(Register::<u32>::from(0x01234567_u32).read(2), 0x23);
    assert_eq!(Register::<u64>::from(0x0123456789abcdef_u64).read(4), 0x67);
    assert_eq!(
        Register::<u128>::from(0x0123456789abcdef0123456789abcdef_u128).read(8),
        0xef
    );
}

#[test]
fn reg_device_write_works() {
    let mut r8 = Register::<u8>::new();
    r8.write(0, 0xaa);
    assert_eq!(r8.read(0), 0xaa_u8);
    let mut r16 = Register::<u16>::new();
    r16.write(1, 0xbb);
    assert_eq!(r16.value(), 0xbb00_u16);
    let mut r32 = Register::<u32>::new();
    r32.write(2, 0xcc);
    assert_eq!(r32.value(), 0x00cc0000_u32);
    let mut r64 = Register::<u64>::new();
    r64.write(4, 0xdd);
    assert_eq!(r64.value(), 0x000000dd00000000_u64);
    let mut r128 = Register::<u128>::new();
    r128.write(8, 0xee);
    assert_eq!(r128.value(), 0x00000000000000ee0000000000000000_u128);
}

#[test]
fn reg_write_keeps_other_bytes() {
    let mut r = Register::<u32>::from(0x11223344_u32);
    r.write(1, 0xab);
    assert_eq!(r.value(), 0x1122ab44_u32);
    assert_eq!(r.read(0), 0x44);
    assert_eq!(r.read(3), 0x11);
    r.reset();
    assert_eq!(r.value(), 0);
}
