//! Bank switching: one of several shared devices is active at a time.
use vstd::prelude::*;

use crate::dev::{
    contains_at, extent, read_at, reset_from, writable_at, written, Devices, SharedDevice,
};

verus! {

/// A switchable bank of shared devices with an active selection.
///
/// The selection is a plain index into the bank list; it may point past the end
/// while the list is being rearranged, but device accesses through the bank
/// need it in range.
pub struct Bank {
    sel: usize,
    banks: Vec<SharedDevice>,
}

impl Bank {
    /// The active selection.
    pub closed spec fn selected(&self) -> nat {
        self.sel as nat
    }

    /// The bank list, in order.
    pub closed spec fn entries(&self) -> Seq<SharedDevice> {
        self.banks@
    }

    /// An empty bank with selection `0`.
    pub fn new() -> (r: Bank)
        ensures
            r.selected() == 0,
            r.entries() == Seq::<SharedDevice>::empty(),
    {
        Bank { sel: 0, banks: Vec::new() }
    }

    /// A bank over the list `banks`, with selection `0`.
    pub fn from(banks: Vec<SharedDevice>) -> (r: Bank)
        ensures
            r.selected() == 0,
            r.entries() == banks@,
    {
        Bank { sel: 0, banks }
    }

    /// The active selection.
    pub fn get(&self) -> (r: usize)
        ensures
            r == self.selected(),
    {
        self.sel
    }

    /// Selects bank `sel`; the list is unchanged.
    pub fn set(&mut self, sel: usize)
        ensures
            final(self).selected() == sel,
            final(self).entries() == old(self).entries(),
    {
        self.sel = sel;
    }

    /// Number of devices in the bank list.
    pub fn count(&self) -> (r: usize)
        ensures
            r == self.entries().len(),
    {
        self.banks.len()
    }

    /// Appends `dev` to the back of the bank list.
    pub fn add(&mut self, dev: SharedDevice)
        ensures
            final(self).selected() == old(self).selected(),
            final(self).entries() == old(self).entries().push(dev),
    {
        self.banks.push(dev);
    }

    /// Removes every device from the bank list.
    pub fn clear(&mut self)
        ensures
            final(self).selected() == old(self).selected(),
            final(self).entries() == Seq::<SharedDevice>::empty(),
    {
        self.banks.clear();
    }

    /// Inserts `dev` at position `index`, shifting the later devices right.
    pub fn insert(&mut self, index: usize, dev: SharedDevice)
        requires
            index <= old(self).entries().len(),
        ensures
            final(self).selected() == old(self).selected(),
            final(self).entries() == old(self).entries().insert(index as int, dev),
    {
        self.banks.insert(index, dev);
    }

    /// Removes and returns the device at position `index`, shifting the later
    /// devices left.
    pub fn remove(&mut self, index: usize) -> (r: SharedDevice)
        requires
            index < old(self).entries().len(),
        ensures
            r == old(self).entries()[index as int],
            final(self).selected() == old(self).selected(),
            final(self).entries() == old(self).entries().remove(index as int),
    {
        self.banks.remove(index)
    }

    /// The device at position `index` of the bank list.
    pub fn entry(&self, index: usize) -> (r: SharedDevice)
        requires
            index < self.entries().len(),
        ensures
            r == self.entries()[index as int],
    {
        self.banks[index]
    }

    /// Every device of the list is held by `d`, and `d` is well formed.
    pub open spec fn mounted(&self, d: &Devices) -> bool {
        &&& d.wf()
        &&& forall|j: int| 0 <= j < self.entries().len() ==> #[trigger] d.holds(self.entries()[j])
    }

    /// The selected device, when the selection is in range.
    pub open spec fn active(&self) -> Option<SharedDevice> {
        if self.selected() < self.entries().len() {
            Some(self.entries()[self.selected() as int])
        } else {
            None
        }
    }

    /// Whether `index` is addressable on the selected device; false when the
    /// selection is out of range.
    pub fn contains(&self, d: &Devices, index: usize) -> (r: bool)
        requires
            self.mounted(d),
        ensures
            r == (self.active() matches Some(a) && contains_at(d@, a.id(), index as int)),
    {
        if self.sel < self.banks.len() {
            let a = self.banks[self.sel];
            assert(d.holds(self.entries()[self.selected() as int]));
            d.contains(a, index)
        } else {
            false
        }
    }

    /// Number of addressable indices of the selected device.
    pub fn len(&self, d: &Devices) -> (r: usize)
        requires
            self.mounted(d),
            self.active() matches Some(a) && extent(d@, a.id()) is Some,
        ensures
            r == extent(d@, self.active()->0.id())->0,
    {
        let a = self.banks[self.sel];
        assert(d.holds(self.entries()[self.selected() as int]));
        d.len(a)
    }

    /// The byte at `index` of the selected device.
    pub fn read(&self, d: &Devices, index: usize) -> (r: u8)
        requires
            self.mounted(d),
            self.active() matches Some(a) && contains_at(d@, a.id(), index as int),
        ensures
            r == read_at(d@, self.active()->0.id(), index as int),
    {
        let a = self.banks[self.sel];
        assert(d.holds(self.entries()[self.selected() as int]));
        d.read(a, index)
    }

    /// Writes `value` at `index` of the selected device.
    pub fn write(&self, d: &mut Devices, index: usize, value: u8)
        requires
            self.mounted(old(d)),
            self.active() matches Some(a) && writable_at(old(d)@, a.id(), index as int),
        ensures
            final(d)@ == written(old(d)@, self.active()->0.id(), index as int, value),
            final(d).wf(),
    {
        let a = self.banks[self.sel];
        assert(d.holds(self.entries()[self.selected() as int]));
        d.write(a, index, value);
    }

    /// Selects bank `0` and resets every device of the list, selected or not.
    pub fn reset(&mut self, d: &mut Devices)
        requires
            old(self).mounted(old(d)),
        ensures
            final(self).selected() == 0,
            final(self).entries() == old(self).entries(),
            reset_from(old(d)@, final(d)@, old(self).entries()),
            final(d).wf(),
    {
        self.sel = 0;
        let n = d.count();
        assert forall|j: int| 0 <= j < self.banks@.len() implies #[trigger] self.banks@[j].id()
            < n by {
            assert(old(d).holds(old(self).entries()[j]));
        }
        d.reset_each(&self.banks, Ghost(n as nat));
    }
}

} // verus!
