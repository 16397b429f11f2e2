use remus::adapt::{Remap, Window};
use remus::bank::Bank;
use remus::bus::Bus;
use remus::dev::{Devices, Node, Null, Random};
use remus::mem::{Ram, Rom};
use remus::reg::Register;

#[test]
fn window_through_remap_at_0x8000() {
    let mut devs = Devices::new();
    let ram = devs.share(Node::Ram(Ram::from(&[0x55; 0x100])));
    let window = devs.share(Node::Window(Window::new(ram, 0x10, 0x20)));
    let remap = devs.share(Node::Remap(Remap::new(window, 0x8000)));
    assert_eq!(devs.len(window), 0x10);
    assert_eq!(devs.len(remap), 0x10);
    assert!(devs.contains(remap, 0x8000));
    assert_eq!(devs.read(remap, 0x8000), 0x55);
    assert_eq!(devs.read(remap, 0x800f), 0x55);
    assert!(!devs.contains(remap, 0x8010));
    assert!(!devs.contains(remap, 0x8030));
    assert!(!devs.contains(remap, 0x7fff));
}

#[test]
fn window_through_remap_reads_window_start() {
    let mut devs = Devices::new();
    let ram = devs.share(Node::Ram(Ram::from(&[0x55; 0x100])));
    let window = devs.share(Node::Window(Window::new(ram, 0x10, 0x20)));
    let remap = devs.share(Node::Remap(Remap::new(window, 0x8010)));
    assert!(devs.contains(remap, 0x8010));
    assert_eq!(devs.read(remap, 0x8010), 0x55);
    assert!(!devs.contains(remap, 0x8030));
}

#[test]
fn window_forwards_with_offset() {
    let mut devs = Devices::new();
    let bytes: Vec<u8> = (0..=0xff).collect();
    let ram = devs.share(Node::Ram(Ram::from(&bytes)));
    let window = devs.share(Node::Window(Window::new(ram, 0x10, 0x20)));
    for i in 0..0x10 {
        assert!(devs.contains(window, i));
        assert_eq!(devs.read(window, i), devs.read(ram, i + 0x10));
    }
    assert!(!devs.contains(window, 0x10));
    devs.write(window, 3, 0xee);
    assert_eq!(devs.read(ram, 0x13), 0xee);
    assert_eq!(devs.read(ram, 0x03), 0x03);
}

#[test]
fn remap_translation_is_consistent() {
    let remap = Remap::new(Devices::new().share(Node::Null(Null::new(4))), 0x100);
    assert_eq!(remap.translate(0x102), Some(2));
    assert_eq!(remap.translate(0x102), Some(2));
    assert_eq!(remap.translate(0xff), None);
    let mut devs = Devices::new();
    let rom = devs.share(Node::Rom(Rom::from(&[9, 8, 7, 6])));
    let remap = devs.share(Node::Remap(Remap::new(rom, 0x100)));
    assert_eq!(devs.read(remap, 0x102), 7);
    assert_eq!(devs.read(remap, 0x102), 7);
    assert_eq!(devs.len(remap), 4);
    assert!(!devs.contains(remap, 0x104));
}

#[test]
fn shared_bank_scenario() {
    let mut devs = Devices::new();
    let ram = devs.share(Node::Ram(Ram::from(&[0x55; 0x100])));
    let null = devs.share(Node::Null(Null::new(0)));
    let random = devs.share(Node::Random(Random::new(0x100, 7)));
    let bank = devs.share(Node::Bank(Bank::from(vec![ram, null, random])));
    assert_eq!(devs.selection(bank), 0);
    assert_eq!(devs.len(bank), 256);
    (0..0x100).for_each(|a| assert_eq!(devs.read(bank, a), 0x55));
    devs.select(bank, 1);
    assert_eq!(devs.len(bank), 0);
    (0..0x100).for_each(|a| assert!(!devs.contains(bank, a)));
    devs.select(bank, 2);
    (0..0x100).for_each(|a| devs.write(bank, a, 0xaa));
    assert!((0..0x100).any(|a| devs.read(bank, a) != 0xaa));
    devs.select(bank, 3);
    assert!(!devs.contains(bank, 0));
}

#[test]
fn reset_reaches_unselected_banks_through_adapters() {
    let mut devs = Devices::new();
    let low = devs.share(Node::Ram(Ram::from(&[1, 2, 3, 4])));
    let high = devs.share(Node::Ram(Ram::from(&[5, 6, 7, 8])));
    let rom = devs.share(Node::Rom(Rom::from(&[0xc3])));
    let bank = devs.share(Node::Bank(Bank::from(vec![low, high])));
    let window = devs.share(Node::Window(Window::new(bank, 1, 3)));
    devs.select(bank, 1);
    assert_eq!(devs.read(window, 0), 6);
    devs.reset(window);
    assert_eq!(devs.selection(bank), 0);
    for i in 0..4 {
        assert_eq!(devs.read(low, i), 0);
        assert_eq!(devs.read(high, i), 0);
    }
    assert_eq!(devs.read(rom, 0), 0xc3);
}

#[test]
fn register_in_collection_is_byte_addressable() {
    let mut devs = Devices::new();
    let reg = devs.share(Node::Register16(Register::<u16>::from(0xbeef)));
    assert_eq!(devs.len(reg), 2);
    assert_eq!(devs.read(reg, 0), 0xef);
    assert_eq!(devs.read(reg, 1), 0xbe);
    devs.write(reg, 1, 0x12);
    assert_eq!(devs.read(reg, 1), 0x12);
    assert_eq!(devs.read(reg, 0), 0xef);
    assert!(!devs.contains(reg, 2));
    match devs.get(reg) {
        Node::Register16(r) => assert_eq!(r.value(), 0x12ef),
        _ => panic!("the handle names a register"),
    }
}

#[test]
fn bus_routes_to_first_claiming_mapping() {
    let mut devs = Devices::new();
    let rom = devs.share(Node::Rom(Rom::from(&[0x10, 0x11, 0x12, 0x13])));
    let ram = devs.share(Node::Ram(Ram::new(8)));
    let mut bus = Bus::new();
    bus.map(0x0000, rom);
    bus.map(0x0002, ram);
    assert_eq!(bus.find(&devs, 1), Some(0));
    assert_eq!(bus.find(&devs, 3), Some(0));
    assert_eq!(bus.find(&devs, 4), Some(1));
    assert_eq!(bus.read(&devs, 3), 0x13);
    bus.write(&mut devs, 5, 0x99);
    assert_eq!(devs.read(ram, 3), 0x99);
    assert_eq!(bus.read(&devs, 5), 0x99);
    assert!(bus.contains(&devs, 9));
    assert!(!bus.contains(&devs, 10));
    bus.reset(&mut devs);
    assert_eq!(devs.read(ram, 3), 0);
    assert_eq!(bus.read(&devs, 0), 0x10);
}

#[test]
fn random_device_ignores_writes() {
    let mut devs = Devices::new();
    let random = devs.share(Node::Random(Random::new(16, 42)));
    let before: Vec<u8> = (0..16).map(|i| devs.read(random, i)).collect();
    devs.write(random, 0, before[0].wrapping_add(1));
    let after: Vec<u8> = (0..16).map(|i| devs.read(random, i)).collect();
    assert_eq!(before, after);
    let mut null = Null::new(3);
    null.write(2, 0x44);
    assert_eq!(null.read(2), 0);
    assert!(!null.contains(3));
}
