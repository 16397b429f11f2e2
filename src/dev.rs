//! Devices and the shared-device graph.
//!
//! Every device lives in a `Devices` collection and is reached through a
//! `SharedDevice` handle; adapters hold handles rather than storage, so the
//! same store can be reached from many places. A device may only wrap devices
//! that were shared before it, which keeps the graph free of cycles.
use vstd::prelude::*;

use crate::adapt::{Remap, Window};
use crate::bank::Bank;
use crate::mem::{blank, Ram, Rom};
use crate::reg::Register;

verus! {

/// A handle to a device held in a `Devices` collection.
#[derive(Clone, Copy, Debug)]
pub struct SharedDevice {
    id: usize,
}

impl SharedDevice {
    /// Position of the device in its collection.
    pub closed spec fn id(&self) -> nat {
        self.id as nat
    }

    /// Position of the device in its collection.
    pub fn index(&self) -> (r: usize)
        ensures
            r == self.id(),
    {
        self.id
    }
}

/// A device of a fixed length that holds nothing: reads give zero and writes
/// are ignored.
pub struct Null {
    len: usize,
}

impl Null {
    /// Number of addressable indices.
    pub closed spec fn extent(&self) -> nat {
        self.len as nat
    }

    /// A null device of `n` indices.
    pub fn new(n: usize) -> (r: Null)
        ensures
            r.extent() == n,
    {
        Null { len: n }
    }

    /// Whether `index` is addressable.
    pub fn contains(&self, index: usize) -> (r: bool)
        ensures
            r == (index < self.extent()),
    {
        index < self.len
    }

    /// Number of addressable indices.
    pub fn len(&self) -> (r: usize)
        ensures
            r == self.extent(),
    {
        self.len
    }

    /// Always zero.
    pub fn read(&self, index: usize) -> (r: u8)
        requires
            index < self.extent(),
        ensures
            r == 0,
    {
        0
    }

    /// Accepts a write at `index` and keeps nothing of it.
    pub fn write(&mut self, index: usize, value: u8)
        requires
            index < old(self).extent(),
        ensures
            final(self).extent() == old(self).extent(),
    {
    }
}

/// The pseudo-random byte that a `Random` device seeded with `seed` shows at
/// `index` (a splitmix64 finalizer over the seed and the index).
pub open spec fn noise(seed: u64, index: u64) -> u8 {
    let x0 = seed.wrapping_add(index.wrapping_mul(0x9e3779b97f4a7c15u64));
    let x1 = (x0 ^ (x0 >> 30u64)).wrapping_mul(0xbf58476d1ce4e5b9u64);
    let x2 = (x1 ^ (x1 >> 27u64)).wrapping_mul(0x94d049bb133111ebu64);
    ((x2 ^ (x2 >> 31u64)) & 0xffu64) as u8
}

/// A device of a fixed length whose reads give pseudo-random bytes and whose
/// writes are ignored.
pub struct Random {
    seed: u64,
    len: usize,
}

impl Random {
    /// Number of addressable indices.
    pub closed spec fn extent(&self) -> nat {
        self.len as nat
    }

    /// The seed that the bytes are drawn from.
    pub closed spec fn source(&self) -> u64 {
        self.seed
    }

    /// A random device of `n` indices drawing from `seed`.
    pub fn new(n: usize, seed: u64) -> (r: Random)
        ensures
            r.extent() == n,
            r.source() == seed,
    {
        Random { seed, len: n }
    }

    /// Whether `index` is addressable.
    pub fn contains(&self, index: usize) -> (r: bool)
        ensures
            r == (index < self.extent()),
    {
        index < self.len
    }

    /// Number of addressable indices.
    pub fn len(&self) -> (r: usize)
        ensures
            r == self.extent(),
    {
        self.len
    }

    /// The pseudo-random byte at `index`.
    pub fn read(&self, index: usize) -> (r: u8)
        requires
            index < self.extent(),
        ensures
            r == noise(self.source(), index as u64),
    {
        let i = index as u64;
        let x0 = self.seed.wrapping_add(i.wrapping_mul(0x9e3779b97f4a7c15u64));
        let x1 = (x0 ^ (x0 >> 30u64)).wrapping_mul(0xbf58476d1ce4e5b9u64);
        let x2 = (x1 ^ (x1 >> 27u64)).wrapping_mul(0x94d049bb133111ebu64);
        ((x2 ^ (x2 >> 31u64)) & 0xffu64) as u8
    }

    /// Accepts a write at `index` and keeps nothing of it.
    pub fn write(&mut self, index: usize, value: u8)
        requires
            index < old(self).extent(),
        ensures
            final(self).extent() == old(self).extent(),
            final(self).source() == old(self).source(),
    {
    }
}

/// What a device is, as far as addressing and lifecycle go.
pub enum Shape {
    /// Read/write memory with its bytes.
    Ram(Seq<u8>),
    /// Read-only memory with its image.
    Rom(Seq<u8>),
    /// Register with its little-endian bytes.
    Register(Seq<u8>),
    /// Null device of a length.
    Null(nat),
    /// Random device with its seed and length.
    Random(u64, nat),
    /// Bank with its selection and its list.
    Bank(nat, Seq<SharedDevice>),
    /// Remap with its inner device and base.
    Remap(SharedDevice, nat),
    /// Window with its inner device and range `[lo, hi)`.
    Window(SharedDevice, nat, nat),
}

/// The devices that `s` wraps.
pub open spec fn links(s: Shape) -> Seq<SharedDevice> {
    match s {
        Shape::Bank(_, banks) => banks,
        Shape::Remap(inner, _) => seq![inner],
        Shape::Window(inner, _, _) => seq![inner],
        _ => Seq::empty(),
    }
}

/// Whether `s` holds its own storage rather than forwarding.
pub open spec fn is_leaf(s: Shape) -> bool {
    !(s is Bank || s is Remap || s is Window)
}

/// Number of indices of a leaf.
pub open spec fn leaf_len(s: Shape) -> nat {
    match s {
        Shape::Ram(b) => b.len(),
        Shape::Rom(b) => b.len(),
        Shape::Register(b) => b.len(),
        Shape::Null(n) => n,
        Shape::Random(_, n) => n,
        _ => 0,
    }
}

/// The byte a leaf shows at `i`.
pub open spec fn leaf_byte(s: Shape, i: int) -> u8 {
    match s {
        Shape::Ram(b) => b[i],
        Shape::Rom(b) => b[i],
        Shape::Register(b) => b[i],
        Shape::Random(seed, _) => noise(seed, i as u64),
        _ => 0,
    }
}

/// A leaf after `v` is written at `i`: stores keep it, null and random
/// devices ignore it.
pub open spec fn leaf_write(s: Shape, i: int, v: u8) -> Shape {
    match s {
        Shape::Ram(b) => Shape::Ram(b.update(i, v)),
        Shape::Register(b) => Shape::Register(b.update(i, v)),
        _ => s,
    }
}

/// A device after its own reset: memories and registers clear to zero, a
/// bank selects `0`; read-only images, links and windows stay.
pub open spec fn reset_shape(s: Shape) -> Shape {
    match s {
        Shape::Ram(b) => Shape::Ram(blank(b.len())),
        Shape::Register(b) => Shape::Register(blank(b.len())),
        Shape::Bank(_, banks) => Shape::Bank(0, banks),
        _ => s,
    }
}

/// A device at position `n` may wrap only devices before it, and a window
/// has `lo <= hi`.
pub open spec fn fits(s: Shape, n: nat) -> bool {
    &&& forall|j: int| 0 <= j < links(s).len() ==> #[trigger] links(s)[j].id() < n
    &&& s matches Shape::Window(_, lo, hi) ==> lo <= hi
}

/// Every device of `d` fits at its position.
pub open spec fn well_formed(d: Seq<Shape>) -> bool {
    forall|k: int| 0 <= k < d.len() ==> #[trigger] fits(d[k], k as nat)
}

/// The leaf and its local index that index `i` of device `h` reaches, if any.
pub open spec fn route(d: Seq<Shape>, h: nat, i: int) -> Option<(nat, int)>
    decreases h,
{
    if h >= d.len() {
        None
    } else {
        match d[h as int] {
            Shape::Bank(sel, banks) => {
                if sel < banks.len() && banks[sel as int].id() < h {
                    route(d, banks[sel as int].id(), i)
                } else {
                    None
                }
            },
            Shape::Remap(inner, base) => {
                if i >= base && inner.id() < h {
                    route(d, inner.id(), i - base)
                } else {
                    None
                }
            },
            Shape::Window(inner, lo, hi) => {
                if 0 <= i < hi - lo && inner.id() < h {
                    route(d, inner.id(), i + lo)
                } else {
                    None
                }
            },
            _ => {
                if 0 <= i < leaf_len(d[h as int]) {
                    Some((h, i))
                } else {
                    None
                }
            },
        }
    }
}

/// Whether index `i` of device `h` is addressable.
pub open spec fn contains_at(d: Seq<Shape>, h: nat, i: int) -> bool {
    route(d, h, i) is Some
}

/// The byte at index `i` of device `h`.
pub open spec fn read_at(d: Seq<Shape>, h: nat, i: int) -> u8 {
    match route(d, h, i) {
        Some((l, j)) => leaf_byte(d[l as int], j),
        None => 0,
    }
}

/// Whether index `i` of device `h` may be written: it is addressable and does
/// not end in read-only memory.
pub open spec fn writable_at(d: Seq<Shape>, h: nat, i: int) -> bool {
    match route(d, h, i) {
        Some((l, _)) => !(d[l as int] is Rom),
        None => false,
    }
}

/// The devices after `v` is written at index `i` of device `h`.
pub open spec fn written(d: Seq<Shape>, h: nat, i: int, v: u8) -> Seq<Shape> {
    match route(d, h, i) {
        Some((l, j)) => d.update(l as int, leaf_write(d[l as int], j, v)),
        None => d,
    }
}

/// The length of device `h`, where it has one (a bank needs its selection in
/// range).
pub open spec fn extent(d: Seq<Shape>, h: nat) -> Option<nat>
    decreases h,
{
    if h >= d.len() {
        None
    } else {
        match d[h as int] {
            Shape::Bank(sel, banks) => {
                if sel < banks.len() && banks[sel as int].id() < h {
                    extent(d, banks[sel as int].id())
                } else {
                    None
                }
            },
            Shape::Remap(inner, _) => {
                if inner.id() < h {
                    extent(d, inner.id())
                } else {
                    None
                }
            },
            Shape::Window(_, lo, hi) => Some((hi - lo) as nat),
            _ => Some(leaf_len(d[h as int])),
        }
    }
}

/// Whether a reset of `h` reaches device `k`: `h` itself and, through every
/// link, whatever its wrapped devices reach, selected or not.
pub open spec fn reaches(d: Seq<Shape>, h: nat, k: nat) -> bool
    decreases h,
{
    h < d.len() && (h == k || exists|j: int|
        0 <= j < links(d[h as int]).len() && #[trigger] links(d[h as int])[j].id() < h
            && reaches(d, links(d[h as int])[j].id(), k))
}

/// Whether a reset of some handle of `hs` reaches device `k`.
pub open spec fn reached_by(d: Seq<Shape>, hs: Seq<SharedDevice>, k: nat) -> bool {
    exists|j: int| 0 <= j < hs.len() && #[trigger] reaches(d, hs[j].id(), k)
}

/// `after` is `before` with every device that some handle of `hs` reaches
/// reset, and every other device untouched.
pub open spec fn reset_from(before: Seq<Shape>, after: Seq<Shape>, hs: Seq<SharedDevice>) -> bool {
    &&& after.len() == before.len()
    &&& forall|k: int|
        0 <= k < before.len() ==> #[trigger] after[k] == if reached_by(before, hs, k as nat) {
            reset_shape(before[k])
        } else {
            before[k]
        }
}

/// `a` and `b` hold devices with the same links, position by position.
pub open spec fn same_links(a: Seq<Shape>, b: Seq<Shape>) -> bool {
    &&& a.len() == b.len()
    &&& forall|k: int| 0 <= k < a.len() ==> #[trigger] links(a[k]) == links(b[k])
}

/// What a reset reaches depends on the links alone.
pub proof fn lemma_reaches_links(a: Seq<Shape>, b: Seq<Shape>, h: nat, k: nat)
    requires
        same_links(a, b),
    ensures
        reaches(a, h, k) == reaches(b, h, k),
    decreases h,
{
    if h < a.len() {
        assert(links(a[h as int]) == links(b[h as int]));
        assert forall|j: int|
            0 <= j < links(a[h as int]).len() && links(a[h as int])[j].id() < h implies reaches(
            a,
            links(a[h as int])[j].id(),
            k,
        ) == reaches(b, links(b[h as int])[j].id(), k) by {
            lemma_reaches_links(a, b, links(a[h as int])[j].id(), k);
        }
    }
}

/// A reset of `h` reaches only devices at or before `h`.
pub proof fn lemma_reaches_below(d: Seq<Shape>, h: nat, k: nat)
    requires
        reaches(d, h, k),
    ensures
        k <= h,
    decreases h,
{
    if h != k {
        let j = choose|j: int|
            0 <= j < links(d[h as int]).len() && #[trigger] links(d[h as int])[j].id() < h
                && reaches(d, links(d[h as int])[j].id(), k);
        lemma_reaches_below(d, links(d[h as int])[j].id(), k);
    }
}

/// A device of any kind, as held by a `Devices` collection.
pub enum Node {
    Ram(Ram),
    Rom(Rom),
    Register8(Register<u8>),
    Register16(Register<u16>),
    Register32(Register<u32>),
    Register64(Register<u64>),
    Register128(Register<u128>),
    Null(Null),
    Random(Random),
    Bank(Bank),
    Remap(Remap),
    Window(Window),
}

impl Node {
    /// What this device is.
    pub open spec fn shape(&self) -> Shape {
        match self {
            Node::Ram(m) => Shape::Ram(m@),
            Node::Rom(m) => Shape::Rom(m@),
            Node::Register8(m) => Shape::Register(m@),
            Node::Register16(m) => Shape::Register(m@),
            Node::Register32(m) => Shape::Register(m@),
            Node::Register64(m) => Shape::Register(m@),
            Node::Register128(m) => Shape::Register(m@),
            Node::Null(m) => Shape::Null(m.extent()),
            Node::Random(m) => Shape::Random(m.source(), m.extent()),
            Node::Bank(b) => Shape::Bank(b.selected(), b.entries()),
            Node::Remap(m) => Shape::Remap(m.target(), m.origin()),
            Node::Window(v) => Shape::Window(v.target(), v.start(), v.end()),
        }
    }
}

/// Where an access at a device goes next.
enum Hop {
    /// The device is a leaf: it serves the access itself.
    Here,
    /// The access goes on to another device, at another index.
    Next(SharedDevice, usize),
    /// The device is an adapter that does not map the index.
    Miss,
}

/// The collection that owns every device of a composition, addressed by
/// `SharedDevice` handles.
pub struct Devices {
    nodes: Vec<Node>,
}

impl View for Devices {
    type V = Seq<Shape>;

    closed spec fn view(&self) -> Seq<Shape> {
        self.nodes@.map_values(|n: Node| n.shape())
    }
}

impl Devices {
    /// Every device wraps only devices shared before it.
    pub open spec fn wf(&self) -> bool {
        well_formed(self@)
    }

    /// Whether `h` is a handle of this collection.
    pub open spec fn holds(&self, h: SharedDevice) -> bool {
        h.id() < self@.len()
    }

    /// Whether `s` may be added: it wraps only devices already held, and a
    /// window lies within its device.
    pub open spec fn admits(&self, s: Shape) -> bool {
        &&& fits(s, self@.len())
        &&& s matches Shape::Window(inner, _, hi) ==> (extent(self@, inner.id()) matches Some(n)
            && hi <= n)
    }

    /// An empty collection.
    pub fn new() -> (r: Devices)
        ensures
            r@ == Seq::<Shape>::empty(),
            r.wf(),
    {
        let r = Devices { nodes: Vec::new() };
        assert(r@ =~= Seq::<Shape>::empty());
        r
    }

    /// Number of devices held.
    pub fn count(&self) -> (r: usize)
        ensures
            r == self@.len(),
    {
        self.nodes.len()
    }

    /// Takes ownership of `node` and returns its handle.
    pub fn share(&mut self, node: Node) -> (r: SharedDevice)
        requires
            old(self).wf(),
            old(self).admits(node.shape()),
        ensures
            final(self)@ == old(self)@.push(node.shape()),
            r.id() == old(self)@.len(),
            final(self).wf(),
    {
        let r = SharedDevice { id: self.nodes.len() };
        self.nodes.push(node);
        assert(self@ =~= old(self)@.push(node.shape()));
        r
    }

    /// The device behind `h`.
    pub fn get(&self, h: SharedDevice) -> (r: &Node)
        requires
            self.holds(h),
        ensures
            r.shape() == self@[h.id() as int],
    {
        &self.nodes[h.id]
    }

    /// The selection of the bank `h`.
    pub fn selection(&self, h: SharedDevice) -> (r: usize)
        requires
            self.holds(h),
            self@[h.id() as int] is Bank,
        ensures
            self@[h.id() as int] matches Shape::Bank(sel, _) && r == sel,
    {
        assert(self@[h.id() as int] == self.nodes@[h.id() as int].shape());
        match &self.nodes[h.id] {
            Node::Bank(b) => b.get(),
            _ => 0,
        }
    }

    /// Selects bank `sel` of the bank `h`; nothing else changes.
    pub fn select(&mut self, h: SharedDevice, sel: usize)
        requires
            old(self).wf(),
            old(self).holds(h),
            old(self)@[h.id() as int] is Bank,
        ensures
            final(self)@ == old(self)@.update(
                h.id() as int,
                Shape::Bank(sel as nat, links(old(self)@[h.id() as int])),
            ),
            final(self).wf(),
    {
        let ghost k = h.id() as int;
        assert(self@[k] == self.nodes@[k].shape());
        match &mut self.nodes[h.id] {
            Node::Bank(b) => b.set(sel),
            _ => {},
        }
        assert(self@ =~= old(self)@.update(k, Shape::Bank(sel as nat, links(old(self)@[k]))));
        assert forall|x: int| 0 <= x < self@.len() implies #[trigger] fits(self@[x], x as nat) by {
            assert(fits(old(self)@[x], x as nat));
            assert(links(self@[x]) == links(old(self)@[x]));
        }
    }

    /// Where an access at index `index` of `h` goes next.
    fn hop(&self, h: SharedDevice, index: usize) -> (r: Hop)
        requires
            self.wf(),
            self.holds(h),
        ensures
            r is Here <==> is_leaf(self@[h.id() as int]),
            r matches Hop::Next(c, j) ==> c.id() < h.id() && route(self@, h.id(), index as int)
                == route(self@, c.id(), j as int) && (self@[h.id() as int] is Bank ==> j == index),
            r is Miss ==> route(self@, h.id(), index as int) is None,
    {
        let ghost d = self@;
        let ghost k = h.id() as int;
        assert(self@[k] == self.nodes@[k].shape());
        assert(fits(d[k], k as nat));
        match &self.nodes[h.id] {
            Node::Bank(b) => {
                let sel = b.get();
                if sel < b.count() {
                    let c = b.entry(sel);
                    assert(links(d[k])[sel as int] == c);
                    Hop::Next(c, index)
                } else {
                    Hop::Miss
                }
            },
            Node::Remap(m) => {
                let c = m.inner();
                assert(links(d[k])[0] == c);
                match m.translate(index) {
                    Some(j) => Hop::Next(c, j),
                    None => Hop::Miss,
                }
            },
            Node::Window(v) => {
                let c = v.inner();
                assert(links(d[k])[0] == c);
                if index < v.hi() - v.lo() {
                    Hop::Next(c, index + v.lo())
                } else {
                    Hop::Miss
                }
            },
            _ => Hop::Here,
        }
    }

    /// Number of indices of the leaf `h`.
    fn leaf_len(&self, h: SharedDevice) -> (r: usize)
        requires
            self.holds(h),
            is_leaf(self@[h.id() as int]),
        ensures
            r == leaf_len(self@[h.id() as int]),
    {
        assert(self@[h.id() as int] == self.nodes@[h.id() as int].shape());
        match &self.nodes[h.id] {
            Node::Ram(m) => m.len(),
            Node::Rom(m) => m.len(),
            Node::Register8(m) => m.len(),
            Node::Register16(m) => m.len(),
            Node::Register32(m) => m.len(),
            Node::Register64(m) => m.len(),
            Node::Register128(m) => m.len(),
            Node::Null(m) => m.len(),
            Node::Random(m) => m.len(),
            _ => 0,
        }
    }

    /// Whether index `index` of `h` is addressable.
    pub fn contains(&self, h: SharedDevice, index: usize) -> (r: bool)
        requires
            self.wf(),
            self.holds(h),
        ensures
            r == contains_at(self@, h.id(), index as int),
        decreases h.id(),
    {
        match self.hop(h, index) {
            Hop::Here => index < self.leaf_len(h),
            Hop::Next(c, j) => self.contains(c, j),
            Hop::Miss => false,
        }
    }

    /// Number of addressable indices of `h`.
    pub fn len(&self, h: SharedDevice) -> (r: usize)
        requires
            self.wf(),
            self.holds(h),
            extent(self@, h.id()) is Some,
        ensures
            r == extent(self@, h.id())->0,
        decreases h.id(),
    {
        let ghost d = self@;
        let ghost k = h.id() as int;
        assert(self@[k] == self.nodes@[k].shape());
        assert(fits(d[k], k as nat));
        match &self.nodes[h.id] {
            Node::Bank(b) => {
                let c = b.entry(b.get());
                assert(links(d[k])[b.selected() as int] == c);
                self.len(c)
            },
            Node::Remap(m) => {
                let c = m.inner();
                assert(links(d[k])[0] == c);
                self.len(c)
            },
            Node::Window(v) => v.hi() - v.lo(),
            _ => self.leaf_len(h),
        }
    }

    /// The byte of the leaf `h` at `index`.
    fn leaf_read(&self, h: SharedDevice, index: usize) -> (r: u8)
        requires
            self.holds(h),
            is_leaf(self@[h.id() as int]),
            index < leaf_len(self@[h.id() as int]),
        ensures
            r == leaf_byte(self@[h.id() as int], index as int),
    {
        assert(self@[h.id() as int] == self.nodes@[h.id() as int].shape());
        match &self.nodes[h.id] {
            Node::Ram(m) => m.read(index),
            Node::Rom(m) => m.read(index),
            Node::Register8(m) => m.read(index),
            Node::Register16(m) => m.read(index),
            Node::Register32(m) => m.read(index),
            Node::Register64(m) => m.read(index),
            Node::Register128(m) => m.read(index),
            Node::Null(m) => m.read(index),
            Node::Random(m) => m.read(index),
            _ => 0,
        }
    }

    /// The byte at index `index` of `h`.
    pub fn read(&self, h: SharedDevice, index: usize) -> (r: u8)
        requires
            self.wf(),
            self.holds(h),
            contains_at(self@, h.id(), index as int),
        ensures
            r == read_at(self@, h.id(), index as int),
        decreases h.id(),
    {
        match self.hop(h, index) {
            Hop::Here => self.leaf_read(h, index),
            Hop::Next(c, j) => self.read(c, j),
            Hop::Miss => 0,
        }
    }

    /// Writes `value` into the leaf `h` at `index`.
    fn leaf_write(&mut self, h: SharedDevice, index: usize, value: u8)
        requires
            old(self).wf(),
            old(self).holds(h),
            is_leaf(old(self)@[h.id() as int]),
            index < leaf_len(old(self)@[h.id() as int]),
            !(old(self)@[h.id() as int] is Rom),
        ensures
            final(self)@ == old(self)@.update(
                h.id() as int,
                leaf_write(old(self)@[h.id() as int], index as int, value),
            ),
            final(self).wf(),
    {
        let ghost k = h.id() as int;
        assert(self@[k] == self.nodes@[k].shape());
        match &mut self.nodes[h.id] {
            Node::Ram(m) => m.write(index, value),
            Node::Register8(m) => m.write(index, value),
            Node::Register16(m) => m.write(index, value),
            Node::Register32(m) => m.write(index, value),
            Node::Register64(m) => m.write(index, value),
            Node::Register128(m) => m.write(index, value),
            Node::Null(m) => m.write(index, value),
            Node::Random(m) => m.write(index, value),
            _ => {},
        }
        assert(self@ =~= old(self)@.update(k, leaf_write(old(self)@[k], index as int, value)));
        assert forall|x: int| 0 <= x < self@.len() implies #[trigger] fits(self@[x], x as nat) by {
            assert(fits(old(self)@[x], x as nat));
        }
    }

    /// Writes `value` at index `index` of `h`.
    pub fn write(&mut self, h: SharedDevice, index: usize, value: u8)
        requires
            old(self).wf(),
            old(self).holds(h),
            writable_at(old(self)@, h.id(), index as int),
        ensures
            final(self)@ == written(old(self)@, h.id(), index as int, value),
            final(self).wf(),
        decreases h.id(),
    {
        match self.hop(h, index) {
            Hop::Here => self.leaf_write(h, index, value),
            Hop::Next(c, j) => self.write(c, j, value),
            Hop::Miss => {},
        }
    }

    /// Applies the device's own reset to `h`, not to what it wraps.
    fn reset_own(&mut self, h: SharedDevice)
        requires
            old(self).wf(),
            old(self).holds(h),
        ensures
            final(self)@ == old(self)@.update(h.id() as int, reset_shape(old(self)@[h.id() as int])),
            final(self).wf(),
    {
        let ghost k = h.id() as int;
        assert(self@[k] == self.nodes@[k].shape());
        match &mut self.nodes[h.id] {
            Node::Ram(m) => m.reset(),
            Node::Rom(m) => m.reset(),
            Node::Register8(m) => m.reset(),
            Node::Register16(m) => m.reset(),
            Node::Register32(m) => m.reset(),
            Node::Register64(m) => m.reset(),
            Node::Register128(m) => m.reset(),
            Node::Bank(b) => b.set(0),
            _ => {},
        }
        assert(self@ =~= old(self)@.update(k, reset_shape(old(self)@[k])));
        assert forall|x: int| 0 <= x < self@.len() implies #[trigger] fits(self@[x], x as nat) by {
            assert(fits(old(self)@[x], x as nat));
            assert(links(self@[x]) == links(old(self)@[x]));
        }
    }

    /// The devices that `h` wraps.
    fn links_of(&self, h: SharedDevice) -> (r: Vec<SharedDevice>)
        requires
            self.holds(h),
        ensures
            r@ == links(self@[h.id() as int]),
    {
        let ghost k = h.id() as int;
        assert(self@[k] == self.nodes@[k].shape());
        let mut r: Vec<SharedDevice> = Vec::new();
        match &self.nodes[h.id] {
            Node::Bank(b) => {
                let mut j: usize = 0;
                while j < b.count()
                    invariant
                        j <= b.entries().len(),
                        r@ == b.entries().take(j as int),
                    decreases b.entries().len() - j,
                {
                    r.push(b.entry(j));
                    j += 1;
                    assert(r@ =~= b.entries().take(j as int));
                }
                assert(r@ =~= b.entries());
            },
            Node::Remap(m) => {
                r.push(m.inner());
                assert(r@ =~= seq![m.target()]);
            },
            Node::Window(v) => {
                r.push(v.inner());
                assert(r@ =~= seq![v.target()]);
            },
            _ => {
                assert(r@ =~= Seq::<SharedDevice>::empty());
            },
        }
        r
    }

    /// Resets `h` and, recursively, every device it wraps, whether selected or
    /// visible or not.
    pub fn reset(&mut self, h: SharedDevice)
        requires
            old(self).wf(),
            old(self).holds(h),
        ensures
            final(self)@.len() == old(self)@.len(),
            forall|k: int|
                0 <= k < old(self)@.len() ==> #[trigger] final(self)@[k] == if reaches(
                    old(self)@,
                    h.id(),
                    k as nat,
                ) {
                    reset_shape(old(self)@[k])
                } else {
                    old(self)@[k]
                },
            final(self).wf(),
        decreases h.id(), 1nat,
    {
        let ghost d0 = self@;
        let ghost n = h.id();
        let ghost hk = h.id() as int;
        assert(fits(d0[hk], hk as nat));
        self.reset_own(h);
        let ghost d1 = self@;
        let hs = self.links_of(h);
        assert(hs@ == links(d0[n as int]));
        self.reset_each(&hs, Ghost(n));
        let ghost d2 = self@;
        proof {
            assert(same_links(d0, d1));
            assert forall|k: int| 0 <= k < d0.len() implies #[trigger] d2[k] == if reaches(
                d0,
                n,
                k as nat,
            ) {
                reset_shape(d0[k])
            } else {
                d0[k]
            } by {
                assert forall|j: int| 0 <= j < hs@.len() implies reaches(d1, hs@[j].id(), k as nat)
                    == reaches(d0, hs@[j].id(), k as nat) by {
                    lemma_reaches_links(d1, d0, hs@[j].id(), k as nat);
                }
                if k == n {
                    if reached_by(d1, hs@, k as nat) {
                        let j = choose|j: int|
                            0 <= j < hs@.len() && #[trigger] reaches(d1, hs@[j].id(), k as nat);
                        lemma_reaches_below(d1, hs@[j].id(), k as nat);
                        assert(links(d0[n as int])[j].id() < n);
                    }
                } else {
                    if reaches(d0, n, k as nat) {
                        let j = choose|j: int|
                            0 <= j < links(d0[n as int]).len() && #[trigger] links(
                                d0[n as int],
                            )[j].id() < n && reaches(d0, links(d0[n as int])[j].id(), k as nat);
                        assert(reaches(d1, hs@[j].id(), k as nat));
                    }
                    if reached_by(d1, hs@, k as nat) {
                        let j = choose|j: int|
                            0 <= j < hs@.len() && #[trigger] reaches(d1, hs@[j].id(), k as nat);
                        assert(links(d0[n as int])[j].id() < n);
                    }
                }
            }
        }
    }

    /// Resets every device of `hs`, and all they wrap.
    pub(crate) fn reset_each(&mut self, hs: &Vec<SharedDevice>, Ghost(bound): Ghost<nat>)
        requires
            old(self).wf(),
            bound <= old(self)@.len(),
            forall|j: int| 0 <= j < hs@.len() ==> #[trigger] hs@[j].id() < bound,
        ensures
            reset_from(old(self)@, final(self)@, hs@),
            same_links(old(self)@, final(self)@),
            final(self).wf(),
        decreases bound, 0nat,
    {
        let ghost d0 = self@;
        let mut i: usize = 0;
        while i < hs.len()
            invariant
                i <= hs@.len(),
                self.wf(),
                bound <= d0.len(),
                forall|j: int| 0 <= j < hs@.len() ==> #[trigger] hs@[j].id() < bound,
                reset_from(d0, self@, hs@.take(i as int)),
                same_links(d0, self@),
            decreases hs@.len() - i,
        {
            let ghost d1 = self@;
            let c = hs[i];
            assert(hs@[i as int].id() < bound);
            self.reset(c);
            let ghost d2 = self@;
            proof {
                let t0 = hs@.take(i as int);
                let t1 = hs@.take(i as int + 1);
                assert forall|k: int| 0 <= k < d0.len() implies #[trigger] links(d0[k]) == links(
                    d2[k],
                ) by {
                    assert(links(d0[k]) == links(d1[k]));
                }
                assert forall|k: int| 0 <= k < d0.len() implies #[trigger] d2[k] == if reached_by(
                    d0,
                    t1,
                    k as nat,
                ) {
                    reset_shape(d0[k])
                } else {
                    d0[k]
                } by {
                    lemma_reaches_links(d1, d0, c.id(), k as nat);
                    assert(d1[k] == if reached_by(d0, t0, k as nat) {
                        reset_shape(d0[k])
                    } else {
                        d0[k]
                    });
                    if reached_by(d0, t1, k as nat) {
                        let j = choose|j: int|
                            0 <= j < t1.len() && #[trigger] reaches(d0, t1[j].id(), k as nat);
                        if j < i {
                            assert(t0[j] == t1[j]);
                            assert(reached_by(d0, t0, k as nat));
                        }
                    }
                    if reached_by(d0, t0, k as nat) {
                        let j = choose|j: int|
                            0 <= j < t0.len() && #[trigger] reaches(d0, t0[j].id(), k as nat);
                        assert(t0[j] == t1[j]);
                    }
                    if reaches(d0, c.id(), k as nat) {
                        assert(t1[i as int] == c);
                    }
                }
            }
            i += 1;
        }
        assert(hs@.take(hs@.len() as int) =~= hs@);
    }
}

} // verus!
