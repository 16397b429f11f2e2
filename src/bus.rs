//! The bus: devices mounted at base addresses of one flat address space.
use vstd::prelude::*;

use crate::dev::{contains_at, read_at, reset_from, writable_at, written, Devices, SharedDevice};

verus! {

/// Whether the mapping `m` (a base and a device) claims global address `i`:
/// the device holds local address `i - base`.
pub open spec fn claims(d: Seq<crate::dev::Shape>, m: (usize, SharedDevice), i: int) -> bool {
    i >= m.0 && contains_at(d, m.1.id(), i - m.0)
}

/// The first mapping at or after position `from` that claims `i`: earlier
/// mappings take precedence over later ones.
pub open spec fn owner(
    d: Seq<crate::dev::Shape>,
    maps: Seq<(usize, SharedDevice)>,
    i: int,
    from: int,
) -> Option<int>
    decreases maps.len() - from,
{
    if from < 0 || from >= maps.len() {
        None
    } else if claims(d, maps[from], i) {
        Some(from)
    } else {
        owner(d, maps, i, from + 1)
    }
}

/// Devices mounted at base addresses, in the order they were mounted.
pub struct Bus {
    maps: Vec<(usize, SharedDevice)>,
}

impl Bus {
    /// The mappings, in mounting order.
    pub closed spec fn mappings(&self) -> Seq<(usize, SharedDevice)> {
        self.maps@
    }

    /// Every mounted device is held by `d`, and `d` is well formed.
    pub open spec fn mounted(&self, d: &Devices) -> bool {
        &&& d.wf()
        &&& forall|j: int| 0 <= j < self.mappings().len() ==> #[trigger] d.holds(self.mappings()[j].1)
    }

    /// The mapping that owns global address `i` in `d`, if any.
    pub open spec fn owner_of(&self, d: &Devices, i: int) -> Option<int> {
        owner(d@, self.mappings(), i, 0)
    }

    /// A bus with nothing mounted.
    pub fn new() -> (r: Bus)
        ensures
            r.mappings() == Seq::<(usize, SharedDevice)>::empty(),
    {
        Bus { maps: Vec::new() }
    }

    /// Mounts `dev` at `base`, after every earlier mapping.
    pub fn map(&mut self, base: usize, dev: SharedDevice)
        ensures
            final(self).mappings() == old(self).mappings().push((base, dev)),
    {
        self.maps.push((base, dev));
    }

    /// Position of the mapping that owns global address `index`, if any.
    pub fn find(&self, d: &Devices, index: usize) -> (r: Option<usize>)
        requires
            self.mounted(d),
        ensures
            r matches Some(k) ==> self.owner_of(d, index as int) == Some(k as int),
            r is None ==> self.owner_of(d, index as int) is None,
    {
        let mut k: usize = 0;
        while k < self.maps.len()
            invariant
                self.mounted(d),
                k <= self.mappings().len(),
                owner(d@, self.mappings(), index as int, 0) == owner(
                    d@,
                    self.mappings(),
                    index as int,
                    k as int,
                ),
            decreases self.mappings().len() - k,
        {
            let (base, dev) = self.maps[k];
            assert(d.holds(self.mappings()[k as int].1));
            if index >= base && d.contains(dev, index - base) {
                return Some(k);
            }
            k += 1;
        }
        None
    }

    /// Whether some mounted device claims global address `index`.
    pub fn contains(&self, d: &Devices, index: usize) -> (r: bool)
        requires
            self.mounted(d),
        ensures
            r == self.owner_of(d, index as int) is Some,
    {
        self.find(d, index).is_some()
    }

    /// The byte at global address `index`, read from the owning device at the
    /// local address `index - base`.
    pub fn read(&self, d: &Devices, index: usize) -> (r: u8)
        requires
            self.mounted(d),
            self.owner_of(d, index as int) is Some,
        ensures
            ({
                let m = self.mappings()[self.owner_of(d, index as int)->0];
                r == read_at(d@, m.1.id(), index - m.0)
            }),
    {
        proof {
            lemma_owner_claims(d@, self.mappings(), index as int, 0);
        }
        let k = self.find(d, index).unwrap();
        let (base, dev) = self.maps[k];
        assert(d.holds(self.mappings()[k as int].1));
        d.read(dev, index - base)
    }

    /// Writes `value` at global address `index`, into the owning device at the
    /// local address `index - base`.
    pub fn write(&self, d: &mut Devices, index: usize, value: u8)
        requires
            self.mounted(old(d)),
            self.owner_of(old(d), index as int) matches Some(k) && writable_at(
                old(d)@,
                self.mappings()[k].1.id(),
                index - self.mappings()[k].0,
            ),
        ensures
            ({
                let m = self.mappings()[self.owner_of(old(d), index as int)->0];
                final(d)@ == written(old(d)@, m.1.id(), index - m.0, value)
            }),
            final(d).wf(),
    {
        proof {
            lemma_owner_claims(d@, self.mappings(), index as int, 0);
        }
        let k = self.find(d, index).unwrap();
        let (base, dev) = self.maps[k];
        assert(d.holds(self.mappings()[k as int].1));
        d.write(dev, index - base, value);
    }

    /// Resets every mounted device, and all they wrap.
    pub fn reset(&self, d: &mut Devices)
        requires
            self.mounted(old(d)),
        ensures
            final(d).wf(),
            reset_from(
                old(d)@,
                final(d)@,
                self.mappings().map_values(|m: (usize, SharedDevice)| m.1),
            ),
    {
        let mut hs: Vec<SharedDevice> = Vec::new();
        let mut k: usize = 0;
        while k < self.maps.len()
            invariant
                k <= self.mappings().len(),
                hs@ == self.mappings().take(k as int).map_values(|m: (usize, SharedDevice)| m.1),
            decreases self.mappings().len() - k,
        {
            hs.push(self.maps[k].1);
            k += 1;
            assert(hs@ =~= self.mappings().take(k as int).map_values(
                |m: (usize, SharedDevice)| m.1,
            ));
        }
        assert(self.mappings().take(k as int) =~= self.mappings());
        let n = d.count();
        assert forall|j: int| 0 <= j < hs@.len() implies #[trigger] hs@[j].id() < n by {
            assert(d.holds(self.mappings()[j].1));
        }
        d.reset_each(&hs, Ghost(n as nat));
    }
}

/// The owner found from a position is at or after it and claims the address.
pub proof fn lemma_owner_claims(
    d: Seq<crate::dev::Shape>,
    maps: Seq<(usize, SharedDevice)>,
    i: int,
    from: int,
)
    requires
        owner(d, maps, i, from) is Some,
    ensures
        owner(d, maps, i, from) matches Some(k) && from <= k < maps.len() && claims(d, maps[k], i),
    decreases maps.len() - from,
{
    if from >= 0 && from < maps.len() && !claims(d, maps[from], i) {
        lemma_owner_claims(d, maps, i, from + 1);
    }
}

} // verus!
