//! The tone curve that sharpens a mask.

use vstd::prelude::*;
use crate::raster::GrayImage;

verus! {

/// A tone curve: the level that each of the 256 levels is turned into. A curve never turns a
/// higher level into a lower one than it turns a lower level into, and never lifts a level.
#[derive(Debug)]
pub struct AlphaCurve {
    pub levels: Vec<u8>,
}

/// Whether a table is that of a tone curve.
pub open spec fn is_curve(levels: Seq<u8>) -> bool {
    &&& levels.len() == 256
    &&& forall|i: int, j: int| 0 <= i <= j < 256 ==> levels[i] <= levels[j]
    &&& forall|i: int| 0 <= i < 256 ==> #[trigger] levels[i] <= i
}

impl AlphaCurve {
    /// The table is that of a tone curve.
    pub open spec fn wf(&self) -> bool {
        is_curve(self.levels@)
    }

    /// Makes a curve out of its table; any other table is refused.
    pub fn new(levels: Vec<u8>) -> (curve: Option<AlphaCurve>)
        ensures
            curve is Some <==> is_curve(levels@),
            curve matches Some(c) ==> c.wf() && c.levels@ == levels@,
    {
        if levels.len() != 256 {
            return None;
        }
        let mut i: usize = 0;
        while i < 256
            invariant
                levels@.len() == 256,
                0 <= i <= 256,
                forall|a: int, b: int| 0 <= a <= b < i ==> levels@[a] <= levels@[b],
                forall|a: int| 0 <= a < i ==> #[trigger] levels@[a] <= a,
            decreases 256 - i,
        {
            if levels[i] as usize > i {
                return None;
            }
            if i > 0 && levels[i - 1] > levels[i] {
                return None;
            }
            i = i + 1;
        }
        Some(AlphaCurve { levels })
    }
}

/// A mask after each of its levels was looked up in `curve`.
pub open spec fn enhanced(data: Seq<u8>, curve: Seq<u8>) -> Seq<u8> {
    Seq::new(data.len(), |i: int| curve[data[i] as int])
}

/// Runs every level of a mask through a tone curve.
pub fn enhance_alpha(alpha: &mut GrayImage, curve: &AlphaCurve)
    requires
        curve.wf(),
    ensures
        final(alpha).width == old(alpha).width,
        final(alpha).height == old(alpha).height,
        final(alpha).data@ == enhanced(old(alpha).data@, curve.levels@),
{
    let ghost before = alpha.data@;
    let total: usize = alpha.data.len();
    let mut i: usize = 0;
    while i < total
        invariant
            curve.wf(),
            total == before.len(),
            alpha.data@.len() == total,
            alpha.width == old(alpha).width,
            alpha.height == old(alpha).height,
            0 <= i <= total,
            forall|k: int|
                0 <= k < total ==> #[trigger] alpha.data@[k] == (if k < i {
                    curve.levels@[before[k] as int]
                } else {
                    before[k]
                }),
        decreases total - i,
    {
        let level: u8 = curve.levels[alpha.data[i] as usize];
        alpha.data.set(i, level);
        i = i + 1;
    }
    assert(alpha.data@ =~= enhanced(before, curve.levels@));
}

/// Where one mask is not above another, it is not above it after both were sharpened either.
pub proof fn law_sharpening_keeps_masks_in_order(
    lower: Seq<u8>,
    higher: Seq<u8>,
    curve: &AlphaCurve,
    i: int,
    j: int,
)
    requires
        curve.wf(),
        0 <= i < lower.len(),
        0 <= j < higher.len(),
        lower[i] <= higher[j],
    ensures
        enhanced(lower, curve.levels@)[i] <= enhanced(higher, curve.levels@)[j],
{
}

/// Sharpening lifts no level of a mask.
pub proof fn law_sharpening_lifts_no_level(mask: Seq<u8>, curve: &AlphaCurve, i: int)
    requires
        curve.wf(),
        0 <= i < mask.len(),
    ensures
        enhanced(mask, curve.levels@)[i] <= mask[i],
{
}

/// Sharpening turns each level into the level that the curve has for it.
pub proof fn law_sharpening_follows_the_curve(mask: Seq<u8>, curve: Seq<u8>, i: int)
    requires
        0 <= i < mask.len(),
    ensures
        enhanced(mask, curve).len() == mask.len(),
        enhanced(mask, curve)[i] == curve[mask[i] as int],
{
}

/// Every table of 256 levels that never falls from one level to the next, and that lifts none, is
/// a curve.
pub proof fn law_rising_table_is_a_curve(levels: Seq<u8>)
    ensures
        is_curve(levels) <==> levels.len() == 256 && (forall|i: int|
            0 <= i < 255 ==> levels[i] <= #[trigger] levels[i + 1]) && (forall|i: int|
            0 <= i < 256 ==> #[trigger] levels[i] <= i),
{
    if levels.len() == 256 && (forall|i: int| 0 <= i < 255 ==> levels[i] <= #[trigger] levels[i + 1])
        && (forall|i: int| 0 <= i < 256 ==> #[trigger] levels[i] <= i) {
        assert forall|i: int, j: int| 0 <= i <= j < 256 implies levels[i] <= levels[j] by {
            lemma_rises(levels, i, j);
        }
    }
}

proof fn lemma_rises(levels: Seq<u8>, i: int, j: int)
    requires
        levels.len() == 256,
        forall|k: int| 0 <= k < 255 ==> levels[k] <= #[trigger] levels[k + 1],
        0 <= i <= j < 256,
    ensures
        levels[i] <= levels[j],
    decreases j - i,
{
    if i < j {
        lemma_rises(levels, i, j - 1);
        assert(levels[j - 1] <= levels[(j - 1) + 1]);
    }
}

} // verus!
