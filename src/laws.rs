//! Properties of device composition, proved over the model of `Devices`.
use vstd::prelude::*;

use crate::dev::{
    contains_at, extent, is_leaf, leaf_len, leaf_write, links, read_at, reaches, route,
    reset_shape, well_formed, writable_at, written, Shape,
};
use crate::reg::{le_bytes, lemma_le_byte, place, Register, Word};

verus! {

/// `s` and `t` send every access the same way: equal devices, or leaves of
/// the same length.
pub open spec fn same_routing(s: Shape, t: Shape) -> bool {
    s == t || (is_leaf(s) && is_leaf(t) && leaf_len(s) == leaf_len(t))
}

/// Routing depends only on how devices send accesses, not on stored bytes.
pub proof fn lemma_route_stable(a: Seq<Shape>, b: Seq<Shape>, h: nat, i: int)
    requires
        a.len() == b.len(),
        forall|k: int| 0 <= k < a.len() ==> #[trigger] same_routing(a[k], b[k]),
    ensures
        route(a, h, i) == route(b, h, i),
    decreases h,
{
    if h < a.len() {
        assert(same_routing(a[h as int], b[h as int]));
        match a[h as int] {
            Shape::Bank(sel, banks) => {
                if sel < banks.len() && banks[sel as int].id() < h {
                    lemma_route_stable(a, b, banks[sel as int].id(), i);
                }
            },
            Shape::Remap(inner, base) => {
                if i >= base && inner.id() < h {
                    lemma_route_stable(a, b, inner.id(), i - base);
                }
            },
            Shape::Window(inner, lo, hi) => {
                if 0 <= i < hi - lo && inner.id() < h {
                    lemma_route_stable(a, b, inner.id(), i + lo);
                }
            },
            _ => {},
        }
    }
}

/// Writing a byte through any composition and reading the same index back
/// gives that byte, when the access ends in read/write memory or a register;
/// and the write leaves every index's routing as it was.
pub proof fn lemma_write_then_read(d: Seq<Shape>, h: nat, i: int, v: u8)
    requires
        well_formed(d),
        writable_at(d, h, i),
        route(d, h, i) matches Some((l, _)) && (d[l as int] is Ram || d[l as int] is Register),
    ensures
        contains_at(written(d, h, i, v), h, i),
        read_at(written(d, h, i, v), h, i) == v,
        forall|g: nat, x: int| #[trigger] route(written(d, h, i, v), g, x) == route(d, g, x),
{
    let (l, j) = route(d, h, i)->0;
    lemma_route_leaf(d, h, i);
    let w = written(d, h, i, v);
    assert forall|k: int| 0 <= k < d.len() implies #[trigger] same_routing(w[k], d[k]) by {}
    assert forall|g: nat, x: int| #[trigger] route(w, g, x) == route(d, g, x) by {
        lemma_route_stable(w, d, g, x);
    }
}

/// An access is routed to a leaf of the collection, at an index it holds.
pub proof fn lemma_route_leaf(d: Seq<Shape>, h: nat, i: int)
    requires
        route(d, h, i) is Some,
    ensures
        route(d, h, i) matches Some((l, j)) && l < d.len() && is_leaf(d[l as int]) && 0 <= j
            < leaf_len(d[l as int]),
    decreases h,
{
    match d[h as int] {
        Shape::Bank(sel, banks) => {
            lemma_route_leaf(d, banks[sel as int].id(), i);
        },
        Shape::Remap(inner, base) => {
            lemma_route_leaf(d, inner.id(), i - base);
        },
        Shape::Window(inner, lo, hi) => {
            lemma_route_leaf(d, inner.id(), i + lo);
        },
        _ => {},
    }
}

/// A bank behaves as its selected device: every access and the length go to
/// it, and nothing when the selection is out of range.
pub proof fn lemma_bank_delegates(d: Seq<Shape>, h: nat, i: int)
    requires
        well_formed(d),
        h < d.len(),
        d[h as int] is Bank,
    ensures
        d[h as int] matches Shape::Bank(sel, banks) && (if sel < banks.len() {
            route(d, h, i) == route(d, banks[sel as int].id(), i) && extent(d, h) == extent(
                d,
                banks[sel as int].id(),
            ) && read_at(d, h, i) == read_at(d, banks[sel as int].id(), i)
        } else {
            !contains_at(d, h, i) && extent(d, h) is None
        }),
{
    let k = h as int;
    assert(crate::dev::fits(d[k], k as nat));
    if let Shape::Bank(sel, banks) = d[k] {
        if sel < banks.len() {
            assert(links(d[k])[sel as int] == banks[sel as int]);
        }
    }
}

/// Reselecting a bank changes only where the next access goes: the devices
/// it holds, and what they contain, stay as they were.
pub proof fn lemma_bank_select(d: Seq<Shape>, h: nat, sel: nat)
    requires
        well_formed(d),
        h < d.len(),
        d[h as int] is Bank,
    ensures
        ({
            let e = d.update(h as int, Shape::Bank(sel, links(d[h as int])));
            &&& well_formed(e)
            &&& forall|g: nat, x: int|
                g < d.len() && !reaches(d, g, h) ==> #[trigger] route(e, g, x) == route(d, g, x)
        }),
{
    let e = d.update(h as int, Shape::Bank(sel, links(d[h as int])));
    assert forall|k: int| 0 <= k < e.len() implies #[trigger] crate::dev::fits(e[k], k as nat) by {
        assert(crate::dev::fits(d[k], k as nat));
        assert(links(e[k]) == links(d[k]));
    }
    assert forall|g: nat, x: int| g < d.len() && !reaches(d, g, h) implies #[trigger] route(e, g, x)
        == route(d, g, x) by {
        lemma_route_unreached(d, e, h, g, x);
    }
}

/// Changing one device does not change the routing of devices whose reset
/// would not reach it.
proof fn lemma_route_unreached(d: Seq<Shape>, e: Seq<Shape>, h: nat, g: nat, x: int)
    requires
        well_formed(d),
        h < d.len(),
        e.len() == d.len(),
        forall|k: int| 0 <= k < d.len() && k != h ==> #[trigger] e[k] == d[k],
        g < d.len(),
        !reaches(d, g, h),
    ensures
        route(e, g, x) == route(d, g, x),
    decreases g,
{
    let k = g as int;
    assert(crate::dev::fits(d[k], k as nat));
    assert(e[k] == d[k]);
    match d[k] {
        Shape::Bank(sel, banks) => {
            if sel < banks.len() && banks[sel as int].id() < g {
                assert(links(d[k])[sel as int] == banks[sel as int]);
                lemma_route_unreached(d, e, h, banks[sel as int].id(), x);
            }
        },
        Shape::Remap(inner, base) => {
            if x >= base && inner.id() < g {
                assert(links(d[k])[0] == inner);
                lemma_route_unreached(d, e, h, inner.id(), x - base);
            }
        },
        Shape::Window(inner, lo, hi) => {
            if 0 <= x < hi - lo && inner.id() < g {
                assert(links(d[k])[0] == inner);
                lemma_route_unreached(d, e, h, inner.id(), x + lo);
            }
        },
        _ => {},
    }
}

/// A reset of a bank reaches every device of its list, selected or not, and
/// everything those devices wrap.
pub proof fn lemma_bank_reset_reaches(d: Seq<Shape>, h: nat, j: int, k: nat)
    requires
        well_formed(d),
        h < d.len(),
        d[h as int] matches Shape::Bank(_, banks) && 0 <= j < banks.len(),
        reaches(d, links(d[h as int])[j].id(), k),
    ensures
        reaches(d, h, k),
{
    let hk = h as int;
    assert(crate::dev::fits(d[hk], hk as nat));
    assert(links(d[hk])[j].id() < h);
}

/// After a reset of a bank, the bank selects `0` and every device of its
/// list is in its own reset state, whichever was selected before.
pub proof fn lemma_bank_reset(before: Seq<Shape>, after: Seq<Shape>, h: nat)
    requires
        well_formed(before),
        h < before.len(),
        before[h as int] is Bank,
        after.len() == before.len(),
        forall|k: int|
            0 <= k < before.len() ==> #[trigger] after[k] == if reaches(before, h, k as nat) {
                reset_shape(before[k])
            } else {
                before[k]
            },
    ensures
        after[h as int] == Shape::Bank(0, links(before[h as int])),
        forall|j: int|
            0 <= j < links(before[h as int]).len() ==> #[trigger] after[links(
                before[h as int],
            )[j].id() as int] == reset_shape(before[links(before[h as int])[j].id() as int]),
{
    let hk = h as int;
    assert(crate::dev::fits(before[hk], hk as nat));
    assert(after[hk] == reset_shape(before[hk]));
    assert forall|j: int| 0 <= j < links(before[hk]).len() implies #[trigger] after[links(
        before[hk],
    )[j].id() as int] == reset_shape(before[links(before[hk])[j].id() as int]) by {
        let c = links(before[hk])[j].id();
        assert(reaches(before, c, c));
        lemma_bank_reset_reaches(before, h, j, c);
    }
}

/// A window shows indices `0 .. hi - lo` of itself as `lo .. hi` of its
/// device: where the device holds all of `[lo, hi)`, an index is contained
/// exactly when it is below `hi - lo`, it reads as the device at `i + lo`, and
/// an index outside the window reaches no device at all.
pub proof fn lemma_window(d: Seq<Shape>, h: nat, i: int)
    requires
        well_formed(d),
        h < d.len(),
        d[h as int] is Window,
    ensures
        d[h as int] matches Shape::Window(inner, lo, hi) && {
            &&& !(0 <= i < hi - lo) ==> route(d, h, i) is None
            &&& 0 <= i < hi - lo ==> route(d, h, i) == route(d, inner.id(), i + lo) && read_at(
                d,
                h,
                i,
            ) == read_at(d, inner.id(), i + lo)
            &&& (forall|j: int| lo <= j < hi ==> #[trigger] contains_at(d, inner.id(), j))
                ==> (contains_at(d, h, i) <==> 0 <= i < hi - lo)
        },
{
    let k = h as int;
    assert(crate::dev::fits(d[k], k as nat));
    if let Shape::Window(inner, lo, hi) = d[k] {
        assert(links(d[k])[0] == inner);
        if 0 <= i < hi - lo {
            if forall|j: int| lo <= j < hi ==> #[trigger] contains_at(d, inner.id(), j) {
                assert(contains_at(d, inner.id(), i + lo));
            }
        }
    }
}

/// A remap sends external index `i` to `i - base` of its device, the same
/// index every time the same remap is asked, and sends indices below `base`
/// nowhere.
pub proof fn lemma_remap(d: Seq<Shape>, h: nat, i: int)
    requires
        well_formed(d),
        h < d.len(),
        d[h as int] is Remap,
    ensures
        d[h as int] matches Shape::Remap(inner, base) && {
            &&& i < base ==> route(d, h, i) is None
            &&& i >= base ==> route(d, h, i) == route(d, inner.id(), i - base) && read_at(
                d,
                h,
                i,
            ) == read_at(d, inner.id(), i - base)
        },
{
    let k = h as int;
    assert(crate::dev::fits(d[k], k as nat));
    if let Shape::Remap(inner, _) = d[k] {
        assert(links(d[k])[0] == inner);
    }
}

/// Byte `i` of a register is the `i`-th least-significant byte of its value.
pub proof fn lemma_register_bytes<U: Word>(r: Register<U>, i: nat)
    requires
        i < U::width(),
    ensures
        r@[i as int] == ((r.held().to_nat() / place(i)) % 256) as u8,
{
    r.lemma_view();
    lemma_le_byte(r.held().to_nat(), U::width(), i);
}

} // verus!
