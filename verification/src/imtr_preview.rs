use vstd::prelude::*;

use crate::imtr_event_object::ImtrEventObject;
use crate::tree_util::Decision;

verus! {

/// How the preview area is divided between the two images: not divided,
/// into an upper and a lower half, or into a left and a right half.
#[derive(Debug, Clone, Copy, PartialEq, Eq, Structural)]
pub enum DivState {
    N,
    H,
    V,
}

/// Half of `v`, rounded towards zero (as `i32` division does).
pub open spec fn half(v: int) -> int {
    if v >= 0 {
        v / 2
    } else {
        -((-v) / 2)
    }
}

/// The side a click at (`x`, `y`) chooses in a preview of `width` by
/// `height`: the first (left) image when the click is in the upper half of
/// a horizontally divided area or the left half of a vertically divided one,
/// the second (right) image otherwise.
pub open spec fn click_decision(div: DivState, x: i32, y: i32, width: i32, height: i32) -> Decision {
    if (div == DivState::H && y < half(height as int)) || (div == DivState::V && x < half(width as int)) {
        Decision::Left
    } else {
        Decision::Right
    }
}

/// The state of the preview of a match: the two images shown, how the area
/// is divided between them, and which one the user chose.
#[derive(Debug)]
pub struct ImtrPreview {
    pub path_a: Option<String>,
    pub path_b: Option<String>,
    pub divstate: DivState,
    pub decision: Decision,
}

impl ImtrPreview {
    /// An empty preview.
    pub fn new() -> (res: ImtrPreview)
        ensures
            res.path_a is None,
            res.path_b is None,
            res.divstate == DivState::N,
            res.decision == Decision::Undef,
    {
        ImtrPreview { path_a: None, path_b: None, divstate: DivState::N, decision: Decision::Undef }
    }

    /// The image on the side `dec`, if one is shown there.
    pub fn get_path(&self, dec: Decision) -> (res: Option<String>)
        ensures
            res == match dec {
                Decision::Left => self.path_a,
                Decision::Right => self.path_b,
                Decision::Undef => None,
            },
    {
        match dec {
            Decision::Left => self.path_a.clone(),
            Decision::Right => self.path_b.clone(),
            Decision::Undef => None,
        }
    }

    /// Takes the two images of the event `e` to be shown and clears the
    /// previous choice; gives back the two paths to load. The paths the
    /// preview reports through `get_path` are left as they were (they are
    /// not updated from the event).
    pub fn update_paths(&mut self, e: &ImtrEventObject) -> (res: (String, String))
        requires
            e.path_a is Some,
            e.path_b is Some,
        ensures
            res.0 == e.path_a->0,
            res.1 == e.path_b->0,
            final(self).path_a == old(self).path_a,
            final(self).path_b == old(self).path_b,
            final(self).divstate == old(self).divstate,
            final(self).decision == Decision::Undef,
    {
        let paths = e.get_path();
        self.decision = Decision::Undef;
        paths
    }

    /// A click at (`x`, `y`) on the preview of `width` by `height` chooses
    /// a side (see `click_decision`).
    pub fn click(&mut self, x: i32, y: i32, width: i32, height: i32)
        ensures
            final(self).decision == click_decision(old(self).divstate, x, y, width, height),
            final(self).decision != Decision::Undef,
            final(self).path_a == old(self).path_a,
            final(self).path_b == old(self).path_b,
            final(self).divstate == old(self).divstate,
    {
        if (self.divstate == DivState::H && y < height / 2) || (self.divstate == DivState::V && x < width
            / 2) {
            self.decision = Decision::Left;
        } else {
            self.decision = Decision::Right;
        }
    }
}

} // verus!
