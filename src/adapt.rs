//! Address adapters: `Remap` translates indices, `Window` exposes a sub-range.
use vstd::prelude::*;

use crate::dev::SharedDevice;

verus! {

/// Exposes a shared device at an offset: external index `i` reaches the
/// inner device at `i - base`, and indices below `base` reach nothing.
pub struct Remap {
    inner: SharedDevice,
    base: usize,
}

impl Remap {
    /// The wrapped device.
    pub closed spec fn target(&self) -> SharedDevice {
        self.inner
    }

    /// The external index that reaches the inner index `0`.
    pub closed spec fn origin(&self) -> nat {
        self.base as nat
    }

    /// The inner index that the external `index` translates to, if any.
    pub open spec fn translation(&self, index: int) -> Option<int> {
        if index >= self.origin() {
            Some(index - self.origin())
        } else {
            None
        }
    }

    /// Wraps `inner` so that its index `0` appears at external index `base`.
    pub fn new(inner: SharedDevice, base: usize) -> (r: Remap)
        ensures
            r.target() == inner,
            r.origin() == base,
    {
        Remap { inner, base }
    }

    /// The wrapped device.
    pub fn inner(&self) -> (r: SharedDevice)
        ensures
            r == self.target(),
    {
        self.inner
    }

    /// The external index that reaches the inner index `0`.
    pub fn base(&self) -> (r: usize)
        ensures
            r == self.origin(),
    {
        self.base
    }

    /// Translates an external index to an inner one, or `None` below the base.
    pub fn translate(&self, index: usize) -> (r: Option<usize>)
        ensures
            r matches Some(j) ==> self.translation(index as int) == Some(j as int),
            r is None ==> self.translation(index as int) is None,
    {
        if index >= self.base {
            Some(index - self.base)
        } else {
            None
        }
    }
}

/// Exposes the half-open range `[lo, hi)` of a shared device as indices
/// `0 .. hi - lo`.
pub struct Window {
    inner: SharedDevice,
    lo: usize,
    hi: usize,
}

impl Window {
    /// The wrapped device.
    pub closed spec fn target(&self) -> SharedDevice {
        self.inner
    }

    /// First inner index of the window.
    pub closed spec fn start(&self) -> nat {
        self.lo as nat
    }

    /// Inner index just past the window.
    pub closed spec fn end(&self) -> nat {
        self.hi as nat
    }

    /// The window `[lo, hi)` over `inner`.
    pub fn new(inner: SharedDevice, lo: usize, hi: usize) -> (r: Window)
        requires
            lo <= hi,
        ensures
            r.target() == inner,
            r.start() == lo,
            r.end() == hi,
    {
        Window { inner, lo, hi }
    }

    /// The wrapped device.
    pub fn inner(&self) -> (r: SharedDevice)
        ensures
            r == self.target(),
    {
        self.inner
    }

    /// First inner index of the window.
    pub fn lo(&self) -> (r: usize)
        ensures
            r == self.start(),
    {
        self.lo
    }

    /// Inner index just past the window.
    pub fn hi(&self) -> (r: usize)
        ensures
            r == self.end(),
    {
        self.hi
    }
}

} // verus!
