use remus::mem::Ram;

#[test]
fn ram_new_works() {
    let ram = Ram::new(0x100);
    assert!(ram.bytes().iter().all(|&byte| byte == 0));
}

#[test]
fn ram_from_works() {
    const N: usize = 0x100;

    let arr = [0; N];
    let ram = Ram::from(&arr);
    assert_eq!(ram.bytes(), &arr[..]);

    let vec: Vec<u8> = (0..N).map(|x| x as u8).collect();
    let buf: [u8; N] = vec.try_into().unwrap();
    let ram = Ram::from(&buf);
    assert_eq!(ram.bytes(), &buf[..]);
}

#[test]
fn ram_device_contains_works() {
    for n in [0x0, 0x1, 0x10, 0x100, 0x1000, 0x10000] {
        let ram = Ram::new(n);
        (0..n).for_each(|addr| assert!(ram.contains(addr)));
        assert!(!ram.contains(n));
        assert_eq!(ram.len(), n);
    }
}

#[test]
fn device_read_write_works() {
    let mut ram = Ram::new(0x1);
    assert_eq!(ram.read(0x0), 0x00);
    ram.write(0x0, 0xaa);
    assert_eq!(ram.read(0x0), 0xaa);
}

#[test]
fn ram_write_keeps_other_bytes_and_reset_zeroes() {
    let mut ram = Ram::from(&[1, 2, 3]);
    ram.write(1, 0x7f);
    assert_eq!(ram.bytes(), &[1, 0x7f, 3]);
    ram.reset();
    assert_eq!(ram.bytes(), &[0, 0, 0]);
}
