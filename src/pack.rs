use vstd::prelude::*;

pub mod maxrects;
pub mod simple;

use crate::sprite::{SpriteAnchor, SpriteData};

verus! {

/// One packed sheet: its size and the anchors placed in it.
#[derive(Debug)]
pub struct PackerResult {
    pub dimensions: (u32, u32),
    pub anchors: Vec<SpriteAnchor>,
}

impl Clone for PackerResult {
    fn clone(&self) -> (r: Self)
        ensures
            r.dimensions == self.dimensions,
            r.anchors@ == self.anchors@,
    {
        PackerResult { dimensions: self.dimensions, anchors: self.anchors.clone() }
    }
}

/// The id and size that an anchor records, as the sprite data it was made for.
pub open spec fn anchor_data(a: SpriteAnchor) -> SpriteData {
    SpriteData { id: a.id, dimensions: a.dimensions }
}

/// The sprite data of the anchors of one sheet, in order.
pub open spec fn sheet_data(r: PackerResult) -> Seq<SpriteData> {
    r.anchors@.map_values(|a: SpriteAnchor| anchor_data(a))
}

/// The sprite data of every anchor of every sheet, sheet after sheet.
pub open spec fn placed(results: Seq<PackerResult>) -> Seq<SpriteData>
    decreases results.len(),
{
    if results.len() == 0 {
        Seq::empty()
    } else {
        placed(results.drop_last()) + sheet_data(results.last())
    }
}

/// Sum of the widths of `sprites`.
pub open spec fn total_width(sprites: Seq<SpriteData>) -> int
    decreases sprites.len(),
{
    if sprites.len() == 0 {
        0
    } else {
        total_width(sprites.drop_last()) + sprites.last().dimensions.0
    }
}

/// Sum of the heights of `sprites`.
pub open spec fn total_height(sprites: Seq<SpriteData>) -> int
    decreases sprites.len(),
{
    if sprites.len() == 0 {
        0
    } else {
        total_height(sprites.drop_last()) + sprites.last().dimensions.1
    }
}

/// Sprites whose widths, and whose heights, laid end to end still fit a
/// `u32` coordinate: no placement of them can leave the coordinate range.
pub open spec fn extents_fit(sprites: Seq<SpriteData>) -> bool {
    total_width(sprites) <= u32::MAX && total_height(sprites) <= u32::MAX
}

/// Every anchor of the sheet lies within the sheet's dimensions.
pub open spec fn anchors_inside(r: PackerResult) -> bool {
    forall|i: int|
        0 <= i < r.anchors.len() ==> {
            &&& (#[trigger] r.anchors[i]).position.0 + r.anchors[i].dimensions.0 <= r.dimensions.0
            &&& r.anchors[i].position.1 + r.anchors[i].dimensions.1 <= r.dimensions.1
        }
}

/// The far right edge over `anchors`, 0 for none.
pub open spec fn extent_x(anchors: Seq<SpriteAnchor>) -> int
    decreases anchors.len(),
{
    if anchors.len() == 0 {
        0
    } else {
        let rest = extent_x(anchors.drop_last());
        let edge = anchors.last().position.0 + anchors.last().dimensions.0;
        if rest >= edge {
            rest
        } else {
            edge
        }
    }
}

/// The far bottom edge over `anchors`, 0 for none.
pub open spec fn extent_y(anchors: Seq<SpriteAnchor>) -> int
    decreases anchors.len(),
{
    if anchors.len() == 0 {
        0
    } else {
        let rest = extent_y(anchors.drop_last());
        let edge = anchors.last().position.1 + anchors.last().dimensions.1;
        if rest >= edge {
            rest
        } else {
            edge
        }
    }
}

pub proof fn lemma_extent_nonneg(anchors: Seq<SpriteAnchor>)
    ensures
        extent_x(anchors) >= 0,
        extent_y(anchors) >= 0,
    decreases anchors.len(),
{
    if anchors.len() > 0 {
        lemma_extent_nonneg(anchors.drop_last());
    }
}

/// Every anchor ends at or before the extents, and the extents are reached
/// (or are 0 for no anchors); if every anchor ends before a bound, so do the
/// extents.
pub proof fn lemma_extent(anchors: Seq<SpriteAnchor>, bound_x: int, bound_y: int)
    ensures
        forall|i: int|
            0 <= i < anchors.len() ==> (#[trigger] anchors[i]).position.0 + anchors[i].dimensions.0
                <= extent_x(anchors) && anchors[i].position.1 + anchors[i].dimensions.1
                <= extent_y(anchors),
        (forall|i: int|
            0 <= i < anchors.len() ==> (#[trigger] anchors[i]).position.0 + anchors[i].dimensions.0
                <= bound_x) && bound_x >= 0 ==> extent_x(anchors) <= bound_x,
        (forall|i: int|
            0 <= i < anchors.len() ==> (#[trigger] anchors[i]).position.1 + anchors[i].dimensions.1
                <= bound_y) && bound_y >= 0 ==> extent_y(anchors) <= bound_y,
    decreases anchors.len(),
{
    if anchors.len() > 0 {
        let rest = anchors.drop_last();
        lemma_extent(rest, bound_x, bound_y);
        assert forall|i: int| 0 <= i < anchors.len() implies (#[trigger] anchors[i]).position.0
            + anchors[i].dimensions.0 <= extent_x(anchors) && anchors[i].position.1
            + anchors[i].dimensions.1 <= extent_y(anchors) by {
            if i < rest.len() {
                assert(rest[i] == anchors[i]);
            } else {
                assert(anchors.last() == anchors[i]);
            }
        }
        if forall|i: int|
            0 <= i < anchors.len() ==> (#[trigger] anchors[i]).position.0 + anchors[i].dimensions.0
                <= bound_x {
            assert forall|i: int| 0 <= i < rest.len() implies (#[trigger] rest[i]).position.0
                + rest[i].dimensions.0 <= bound_x by {
                assert(rest[i] == anchors[i]);
            }
        }
        if forall|i: int|
            0 <= i < anchors.len() ==> (#[trigger] anchors[i]).position.1 + anchors[i].dimensions.1
                <= bound_y {
            assert forall|i: int| 0 <= i < rest.len() implies (#[trigger] rest[i]).position.1
                + rest[i].dimensions.1 <= bound_y by {
                assert(rest[i] == anchors[i]);
            }
        }
    }
}

/// Two anchors share some area.
pub open spec fn overlap(a: SpriteAnchor, b: SpriteAnchor) -> bool {
    &&& a.position.0 < b.position.0 + b.dimensions.0
    &&& b.position.0 < a.position.0 + a.dimensions.0
    &&& a.position.1 < b.position.1 + b.dimensions.1
    &&& b.position.1 < a.position.1 + a.dimensions.1
}

/// No two anchors of the sheet share any area.
pub open spec fn no_overlap(r: PackerResult) -> bool {
    forall|i: int, j: int|
        0 <= i < r.anchors.len() && 0 <= j < r.anchors.len() && i != j ==> !overlap(
            #[trigger] r.anchors[i],
            #[trigger] r.anchors[j],
        )
}

/// What every packing strategy owes: each sprite placed exactly once with its
/// own size, every sheet exactly the bounding box of its anchors, and no sheet
/// larger than all the sprites laid end to end.
pub open spec fn packs(sprites: Seq<SpriteData>, results: Seq<PackerResult>) -> bool {
    &&& placed(results).to_multiset() == sprites.to_multiset()
    &&& forall|k: int|
        0 <= k < results.len() ==> {
            &&& anchors_inside(#[trigger] results[k])
            &&& results[k].dimensions.0 == extent_x(results[k].anchors@)
            &&& results[k].dimensions.1 == extent_y(results[k].anchors@)
            &&& results[k].dimensions.0 <= total_width(sprites)
            &&& results[k].dimensions.1 <= total_height(sprites)
        }
}

/// A packing strategy: places a sequence of sized sprites into one or more
/// sheets.
pub trait Packer {
    type Options;

    /// The strategy never lets two anchors of a sheet overlap.
    spec fn keeps_apart() -> bool;

    /// What the strategy promises of its sheets `r` for these sprites and
    /// options, beyond what every strategy owes.
    spec fn outcome(sprites: Seq<SpriteData>, options: Self::Options, r: Seq<PackerResult>) -> bool;

    fn pack(sprites: &[SpriteData], options: Self::Options) -> (r: Vec<PackerResult>)
        requires
            extents_fit(sprites@),
        ensures
            packs(sprites@, r@),
            Self::outcome(sprites@, options, r@),
            Self::keeps_apart() ==> forall|k: int| 0 <= k < r.len() ==> no_overlap(#[trigger] r[k]),
    ;
}

pub proof fn lemma_placed_push(results: Seq<PackerResult>, r: PackerResult)
    ensures
        placed(results.push(r)) == placed(results) + sheet_data(r),
{
    assert(results.push(r).drop_last() =~= results);
}

pub proof fn lemma_placed_concat(a: Seq<PackerResult>, b: Seq<PackerResult>)
    ensures
        placed(a + b) == placed(a) + placed(b),
    decreases b.len(),
{
    if b.len() == 0 {
        assert(a + b =~= a);
        assert(placed(a) + placed(b) =~= placed(a));
    } else {
        lemma_placed_concat(a, b.drop_last());
        assert((a + b).drop_last() =~= a + b.drop_last());
        assert((a + b).last() == b.last());
        assert(placed(a) + placed(b.drop_last()) + sheet_data(b.last()) =~= placed(a) + placed(b));
    }
}

pub proof fn lemma_placed_push_multiset(results: Seq<PackerResult>, r: PackerResult)
    ensures
        placed(results.push(r)).to_multiset() == placed(results).to_multiset().add(
            sheet_data(r).to_multiset(),
        ),
{
    lemma_placed_push(results, r);
    vstd::seq_lib::lemma_multiset_commutative(placed(results), sheet_data(r));
}

pub proof fn lemma_totals_push(sprites: Seq<SpriteData>, s: SpriteData)
    ensures
        total_width(sprites.push(s)) == total_width(sprites) + s.dimensions.0,
        total_height(sprites.push(s)) == total_height(sprites) + s.dimensions.1,
{
    assert(sprites.push(s).drop_last() =~= sprites);
}

pub proof fn lemma_totals_nonneg(sprites: Seq<SpriteData>)
    ensures
        total_width(sprites) >= 0,
        total_height(sprites) >= 0,
    decreases sprites.len(),
{
    if sprites.len() > 0 {
        lemma_totals_nonneg(sprites.drop_last());
    }
}

/// Every sprite's extent is part of the total.
pub proof fn lemma_totals_ge_elem(sprites: Seq<SpriteData>, i: int)
    requires
        0 <= i < sprites.len(),
    ensures
        sprites[i].dimensions.0 <= total_width(sprites),
        sprites[i].dimensions.1 <= total_height(sprites),
    decreases sprites.len(),
{
    lemma_totals_nonneg(sprites.drop_last());
    if i < sprites.len() - 1 {
        lemma_totals_ge_elem(sprites.drop_last(), i);
    }
}

/// Removing one sprite takes its extent off the totals.
pub proof fn lemma_totals_remove(sprites: Seq<SpriteData>, i: int)
    requires
        0 <= i < sprites.len(),
    ensures
        total_width(sprites.remove(i)) == total_width(sprites) - sprites[i].dimensions.0,
        total_height(sprites.remove(i)) == total_height(sprites) - sprites[i].dimensions.1,
    decreases sprites.len(),
{
    if i == sprites.len() - 1 {
        assert(sprites.remove(i) =~= sprites.drop_last());
    } else {
        lemma_totals_remove(sprites.drop_last(), i);
        assert(sprites.remove(i) =~= sprites.drop_last().remove(i).push(sprites.last()));
        lemma_totals_push(sprites.drop_last().remove(i), sprites.last());
    }
}

} // verus!
