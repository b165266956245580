//! Which debug guides are drawn: the grid planes, the axes, the origin marker.

use vstd::prelude::*;

verus! {

/// The indices `i` (in increasing order) at which `flags[i]` holds.
pub open spec fn visible_indices(flags: Seq<bool>) -> Seq<usize>
    decreases flags.len(),
{
    if flags.len() == 0 {
        Seq::empty()
    } else if flags.last() {
        visible_indices(flags.drop_last()).push((flags.len() - 1) as usize)
    } else {
        visible_indices(flags.drop_last())
    }
}

/// Visibility of the guides: grid planes XY, XZ, YZ; axes X, Y, Z; origin.
#[derive(Copy, Clone, Debug)]
pub struct OverlayVisibility {
    pub plane_visible: [bool; 3],
    pub axes_visible: [bool; 3],
    pub origin_visible: bool,
}

impl OverlayVisibility {
    /// The ground plane (XZ), the three axes and the origin are shown.
    pub fn new() -> (v: Self)
        ensures
            v.plane_visible@ == seq![false, true, false],
            v.axes_visible@ == seq![true, true, true],
            v.origin_visible,
    {
        let v = OverlayVisibility { plane_visible: [false, true, false], axes_visible: [true, true, true], origin_visible: true };
        assert(v.plane_visible@ =~= seq![false, true, false]);
        assert(v.axes_visible@ =~= seq![true, true, true]);
        v
    }

    /// Shows or hides the grid plane `plane` (0 = XY, 1 = XZ, 2 = YZ).
    pub fn set_plane_visible(&mut self, plane: usize, visible: bool)
        requires
            plane < 3,
        ensures
            final(self).plane_visible@ == old(self).plane_visible@.update(plane as int, visible),
            final(self).axes_visible == old(self).axes_visible,
            final(self).origin_visible == old(self).origin_visible,
    {
        self.plane_visible[plane] = visible;
    }

    /// Shows or hides the axis `axis` (0 = X, 1 = Y, 2 = Z).
    pub fn set_axis_visible(&mut self, axis: usize, visible: bool)
        requires
            axis < 3,
        ensures
            final(self).axes_visible@ == old(self).axes_visible@.update(axis as int, visible),
            final(self).plane_visible == old(self).plane_visible,
            final(self).origin_visible == old(self).origin_visible,
    {
        self.axes_visible[axis] = visible;
    }

    pub fn set_plane_xy_visible(&mut self, visible: bool)
        ensures
            final(self).plane_visible@ == old(self).plane_visible@.update(0, visible),
            final(self).axes_visible == old(self).axes_visible,
            final(self).origin_visible == old(self).origin_visible,
    {
        self.set_plane_visible(0, visible);
    }

    pub fn set_plane_xz_visible(&mut self, visible: bool)
        ensures
            final(self).plane_visible@ == old(self).plane_visible@.update(1, visible),
            final(self).axes_visible == old(self).axes_visible,
            final(self).origin_visible == old(self).origin_visible,
    {
        self.set_plane_visible(1, visible);
    }

    pub fn set_plane_yz_visible(&mut self, visible: bool)
        ensures
            final(self).plane_visible@ == old(self).plane_visible@.update(2, visible),
            final(self).axes_visible == old(self).axes_visible,
            final(self).origin_visible == old(self).origin_visible,
    {
        self.set_plane_visible(2, visible);
    }

    pub fn set_axis_x_visible(&mut self, visible: bool)
        ensures
            final(self).axes_visible@ == old(self).axes_visible@.update(0, visible),
            final(self).plane_visible == old(self).plane_visible,
            final(self).origin_visible == old(self).origin_visible,
    {
        self.set_axis_visible(0, visible);
    }

    pub fn set_axis_y_visible(&mut self, visible: bool)
        ensures
            final(self).axes_visible@ == old(self).axes_visible@.update(1, visible),
            final(self).plane_visible == old(self).plane_visible,
            final(self).origin_visible == old(self).origin_visible,
    {
        self.set_axis_visible(1, visible);
    }

    pub fn set_axis_z_visible(&mut self, visible: bool)
        ensures
            final(self).axes_visible@ == old(self).axes_visible@.update(2, visible),
            final(self).plane_visible == old(self).plane_visible,
            final(self).origin_visible == old(self).origin_visible,
    {
        self.set_axis_visible(2, visible);
    }

    pub fn set_origin_visible(&mut self, visible: bool)
        ensures
            final(self).origin_visible == visible,
            final(self).plane_visible == old(self).plane_visible,
            final(self).axes_visible == old(self).axes_visible,
    {
        self.origin_visible = visible;
    }

    /// The grid planes to draw, in order.
    pub fn visible_planes(&self) -> (r: Vec<usize>)
        ensures
            r@ == visible_indices(self.plane_visible@),
    {
        visible_of(&self.plane_visible)
    }

    /// The axes to draw, in order.
    pub fn visible_axes(&self) -> (r: Vec<usize>)
        ensures
            r@ == visible_indices(self.axes_visible@),
    {
        visible_of(&self.axes_visible)
    }
}

fn visible_of(flags: &[bool; 3]) -> (r: Vec<usize>)
    ensures
        r@ == visible_indices(flags@),
{
    let mut out: Vec<usize> = Vec::new();
    let mut i: usize = 0;
    while i < 3
        invariant
            i <= 3,
            flags@.len() == 3,
            out@ == visible_indices(flags@.take(i as int)),
        decreases 3 - i,
    {
        if flags[i] {
            out.push(i);
        }
        proof {
            assert(flags@.take(i + 1).drop_last() =~= flags@.take(i as int));
        }
        i = i + 1;
    }
    assert(flags@.take(3) =~= flags@);
    out
}

/// A guide is drawn exactly when it is visible: `visible_indices` lists
/// each visible index once, in increasing order, and no hidden one.
pub proof fn lemma_visible_indices(flags: Seq<bool>)
    requires
        flags.len() <= usize::MAX,
    ensures
        forall|i: int| 0 <= i < flags.len() ==> (flags[i] <==> visible_indices(flags).contains(i as usize)),
        forall|a: int, b: int|
            0 <= a < b < visible_indices(flags).len() ==> visible_indices(flags)[a] < visible_indices(flags)[b],
        forall|a: int| 0 <= a < visible_indices(flags).len() ==> visible_indices(flags)[a] < flags.len(),
    decreases flags.len(),
{
    if flags.len() > 0 {
        let init = flags.drop_last();
        lemma_visible_indices(init);
        let v = visible_indices(init);
        let n = (flags.len() - 1) as usize;
        assert forall|i: int| 0 <= i < flags.len() implies (flags[i] <==> visible_indices(flags).contains(i as usize)) by {
            if i < flags.len() - 1 {
                assert(init[i] == flags[i]);
                if flags.last() {
                    if v.contains(i as usize) {
                        let k = choose|k: int| 0 <= k < v.len() && v[k] == i as usize;
                        assert(visible_indices(flags)[k] == i as usize);
                    }
                    if visible_indices(flags).contains(i as usize) {
                        let k = choose|k: int| 0 <= k < visible_indices(flags).len() && visible_indices(flags)[k] == i as usize;
                        if k < v.len() {
                            assert(v[k] == i as usize);
                        }
                    }
                }
            } else {
                if flags.last() {
                    assert(visible_indices(flags)[v.len() as int] == n);
                } else {
                    if v.contains(n) {
                        let k = choose|k: int| 0 <= k < v.len() && v[k] == n;
                        assert(v[k] < init.len());
                    }
                }
            }
        }
    }
}

} // verus!
