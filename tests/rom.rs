use remus::mem::Rom;

#[test]
fn rom_new_works() {
    let rom = Rom::new(0x100);
    assert!(rom.bytes().iter().all(|&byte| byte == 0));
}

#[test]
fn rom_from_works() {
    const N: usize = 0x100;

    let arr = [0; N];
    let rom = Rom::from(&arr);
    assert_eq!(rom.bytes(), &arr[..]);

    let vec: Vec<u8> = (0..N).map(|x| x as u8).collect();
    let buf: [u8; N] = vec.try_into().unwrap();
    let rom = Rom::from(&buf);
    assert_eq!(rom.bytes(), &buf[..]);
}

#[test]
fn rom_device_contains_works() {
    for n in [0x0, 0x1, 0x10, 0x100, 0x1000, 0x10000] {
        let rom = Rom::new(n);
        (0..n).for_each(|addr| assert!(rom.contains(addr)));
        assert!(!rom.contains(n));
        assert_eq!(rom.len(), n);
    }
}

#[test]
fn rom_device_read_works() {
    let rom = Rom::from(&[0xaa]);
    assert_eq!(rom.read(0x0), 0xaa);
}

#[test]
fn rom_reset_keeps_image() {
    let mut rom = Rom::from(&[0x12, 0x34]);
    rom.reset();
    assert_eq!(rom.bytes(), &[0x12, 0x34]);
}
