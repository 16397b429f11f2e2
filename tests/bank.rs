use remus::bank::Bank;
use remus::dev::{Devices, Node, Null, Random};
use remus::mem::Ram;

fn setup() -> (Devices, Bank) {
    let mut devs = Devices::new();
    let mut bank = Bank::new();
    let ram = devs.share(Node::Ram(Ram::from(&[0x55; 0x100])));
    let null = devs.share(Node::Null(Null::new(0)));
    let random = devs.share(Node::Random(Random::new(0x100, 0x2545_f491_4f6c_dd1d)));
    bank.add(ram);
    bank.add(null);
    bank.add(random);
    (devs, bank)
}

#[test]
fn bank_new_works() {
    let _ = Bank::new();
}

#[test]
fn bank_device_contains_works() {
    let (devs, mut bank) = setup();
    // Test bank 0
    bank.set(0);
    (0x00..=0xff).for_each(|addr| assert!(bank.contains(&devs, addr)));
    // Test bank 1
    bank.set(1);
    (0x00..=0xff).for_each(|addr| assert!(!bank.contains(&devs, addr)));
    // Test bank 2
    bank.set(2);
    (0x00..=0xff).for_each(|addr| assert!(bank.contains(&devs, addr)));
}

#[test]
fn device_len_works() {
    let (devs, mut bank) = setup();
    bank.set(0);
    assert_eq!(bank.len(&devs), 0x100);
    bank.set(1);
    assert_eq!(bank.len(&devs), 0);
    bank.set(2);
    assert_eq!(bank.len(&devs), 0x100);
}

#[test]
fn bank_device_read_works() {
    let (devs, mut bank) = setup();
    bank.set(0);
    (0x00..=0xff).for_each(|addr| assert_eq!(bank.read(&devs, addr), 0x55));
    bank.set(2);
    (0x00..=0xff).for_each(|addr| {
        let _ = bank.read(&devs, addr);
    });
}

#[test]
fn bank_device_write_works() {
    let (mut devs, mut bank) = setup();
    bank.set(0);
    (0x00..=0xff).for_each(|addr| bank.write(&mut devs, addr, 0xaa));
    (0x00..=0xff).for_each(|addr| assert_eq!(bank.read(&devs, addr), 0xaa));
    bank.set(2);
    (0x00..=0xff).for_each(|addr| bank.write(&mut devs, addr, 0xaa));
    assert!((0x00..=0xff)
        .map(|addr| bank.read(&devs, addr))
        .any(|value| value != 0xaa));
}

#[test]
fn bank_list_edits_shift_entries() {
    let mut devs = Devices::new();
    let a = devs.share(Node::Null(Null::new(1)));
    let b = devs.share(Node::Null(Null::new(2)));
    let c = devs.share(Node::Null(Null::new(3)));
    let mut bank = Bank::from(vec![a, c]);
    assert_eq!(bank.get(), 0);
    bank.insert(1, b);
    assert_eq!(bank.count(), 3);
    assert_eq!(bank.entry(1).index(), b.index());
    assert_eq!(bank.entry(2).index(), c.index());
    let removed = bank.remove(0);
    assert_eq!(removed.index(), a.index());
    assert_eq!(bank.entry(0).index(), b.index());
    bank.set(1);
    assert_eq!(bank.len(&devs), 3);
    bank.clear();
    assert_eq!(bank.count(), 0);
    assert_eq!(bank.get(), 1);
    assert!(!bank.contains(&devs, 0));
}

#[test]
fn bank_reset_clears_every_bank_and_selects_first() {
    let mut devs = Devices::new();
    let first = devs.share(Node::Ram(Ram::from(&[1, 2])));
    let second = devs.share(Node::Ram(Ram::from(&[3, 4])));
    let mut bank = Bank::from(vec![first, second]);
    bank.set(1);
    bank.write(&mut devs, 0, 9);
    bank.reset(&mut devs);
    assert_eq!(bank.get(), 0);
    assert_eq!(devs.read(first, 0), 0);
    assert_eq!(devs.read(first, 1), 0);
    assert_eq!(devs.read(second, 0), 0);
    assert_eq!(devs.read(second, 1), 0);
}
