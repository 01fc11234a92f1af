use vstd::multiset::Multiset;
use vstd::prelude::*;

use crate::pack::{
    anchors_inside, extent_x, extent_y, lemma_extent, lemma_placed_concat,
    lemma_placed_push_multiset, lemma_totals_ge_elem,
    lemma_totals_nonneg, lemma_totals_push, lemma_totals_remove, no_overlap, overlap, packs,
    placed, sheet_data, total_height, total_width, Packer, PackerResult,
};
use crate::sprite::{SpriteAnchor, SpriteData};

verus! {

broadcast use vstd::seq_lib::group_to_multiset_ensures;

/// The maximal-rectangles packer: best-short-side-fit placement into sheets
/// of a preferred size, opening further sheets as needed.
pub struct MaxrectsPacker;

/// Options of the maximal-rectangles packer: the size of each sheet.
#[derive(Copy, Clone)]
pub struct MaxrectsOptions {
    preferred_width: u32,
    preferred_height: u32,
}

impl MaxrectsOptions {
    pub closed spec fn width(self) -> u32 {
        self.preferred_width
    }

    pub closed spec fn height(self) -> u32 {
        self.preferred_height
    }

    pub fn preferred_width(self, width: u32) -> (r: Self)
        ensures
            r.width() == width,
            r.height() == self.height(),
    {
        let mut options = self;
        options.preferred_width = width;
        options
    }

    pub fn preferred_height(self, height: u32) -> (r: Self)
        ensures
            r.width() == self.width(),
            r.height() == height,
    {
        let mut options = self;
        options.preferred_height = height;
        options
    }
}

impl Default for MaxrectsOptions {
    fn default() -> (r: Self)
        ensures
            r.width() == 4096,
            r.height() == 4096,
    {
        MaxrectsOptions { preferred_width: 4096, preferred_height: 4096 }
    }
}

/// An axis-aligned rectangle given by its corners; `max_x` and `max_y` are
/// exclusive.
#[derive(Debug, Clone, Copy, PartialEq, Eq, Structural)]
pub struct Rect {
    pub min_x: u32,
    pub min_y: u32,
    pub max_x: u32,
    pub max_y: u32,
}

impl Rect {
    pub open spec fn wf(self) -> bool {
        self.min_x <= self.max_x && self.min_y <= self.max_y
    }

    /// Lies within a bin of `width` by `height` anchored at the origin.
    pub open spec fn inside(self, width: int, height: int) -> bool {
        self.wf() && self.max_x <= width && self.max_y <= height
    }

    pub open spec fn encloses(self, other: Rect) -> bool {
        &&& self.min_x <= other.min_x
        &&& self.min_y <= other.min_y
        &&& self.max_x >= other.max_x
        &&& self.max_y >= other.max_y
    }

    /// The two rectangles share no area.
    pub open spec fn apart(self, other: Rect) -> bool {
        ||| self.min_x >= other.max_x
        ||| self.max_x <= other.min_x
        ||| self.min_y >= other.max_y
        ||| self.max_y <= other.min_y
    }

    pub open spec fn width(self) -> int {
        self.max_x - self.min_x
    }

    pub open spec fn height(self) -> int {
        self.max_y - self.min_y
    }

    pub fn xywh(x: u32, y: u32, width: u32, height: u32) -> (r: Self)
        requires
            x + width <= u32::MAX,
            y + height <= u32::MAX,
        ensures
            r == (Rect { min_x: x, min_y: y, max_x: (x + width) as u32, max_y: (y + height) as u32 }),
    {
        Rect { min_x: x, min_y: y, max_x: x + width, max_y: y + height }
    }

    pub fn new(min_x: u32, min_y: u32, max_x: u32, max_y: u32) -> (r: Self)
        ensures
            r == (Rect { min_x, min_y, max_x, max_y }),
    {
        Rect { min_x, min_y, max_x, max_y }
    }

    pub fn contains(&self, other: &Rect) -> (r: bool)
        ensures
            r == self.encloses(*other),
    {
        self.min_x <= other.min_x && self.min_y <= other.min_y && self.max_x >= other.max_x
            && self.max_y >= other.max_y
    }

    pub fn no_intersection(&self, other: &Rect) -> (r: bool)
        ensures
            r == self.apart(*other),
    {
        self.min_x >= other.max_x || self.max_x <= other.min_x || self.min_y >= other.max_y
            || self.max_y <= other.min_y
    }
}

/// The placement a free rectangle offers and what it leaves over; lower is
/// better.
#[derive(Debug, Clone, Copy, PartialEq, Eq, Structural)]
pub struct RectScore {
    pub placement: Rect,
    pub primary: u32,
    pub secondary: u32,
}

/// The outcome of scoring a sprite size against the free rectangles.
#[derive(Debug, Clone, Copy, PartialEq, Eq, Structural)]
pub enum ScoreResult {
    NoFit,
    FitFound(RectScore),
}

/// A sprite of `width` by `height` fits inside the free rectangle `f`.
pub open spec fn fits(f: Rect, width: int, height: int) -> bool {
    width <= f.width() && height <= f.height()
}

/// No free rectangle can hold a sprite of `width` by `height`.
pub open spec fn fits_nowhere(free: Seq<Rect>, width: int, height: int) -> bool {
    forall|k: int| 0 <= k < free.len() ==> !fits(#[trigger] free[k], width, height)
}

/// The smaller of the two leftovers when placing `width` by `height` in `f`.
pub open spec fn short_side(f: Rect, width: int, height: int) -> int {
    let horizontal = f.width() - width;
    let vertical = f.height() - height;
    if horizontal <= vertical {
        horizontal
    } else {
        vertical
    }
}

/// The larger of the two leftovers when placing `width` by `height` in `f`.
pub open spec fn long_side(f: Rect, width: int, height: int) -> int {
    let horizontal = f.width() - width;
    let vertical = f.height() - height;
    if horizontal <= vertical {
        vertical
    } else {
        horizontal
    }
}

/// `f` is a strictly better fit than `g` under best-short-side-fit.
pub open spec fn better_fit(f: Rect, g: Rect, width: int, height: int) -> bool {
    ||| short_side(f, width, height) < short_side(g, width, height)
    ||| short_side(f, width, height) == short_side(g, width, height) && long_side(f, width, height)
        < long_side(g, width, height)
}

/// `free[k]` is the first of the best-fitting free rectangles for the size.
pub open spec fn is_best_fit(free: Seq<Rect>, width: int, height: int, k: int) -> bool {
    &&& 0 <= k < free.len()
    &&& fits(free[k], width, height)
    &&& forall|j: int|
        0 <= j < k && fits(#[trigger] free[j], width, height) ==> better_fit(
            free[k],
            free[j],
            width,
            height,
        )
    &&& forall|j: int|
        k < j < free.len() && fits(#[trigger] free[j], width, height) ==> !better_fit(
            free[j],
            free[k],
            width,
            height,
        )
}

/// The rectangle of `width` by `height` at the top-left corner of `f`.
pub open spec fn corner_of(f: Rect, width: int, height: int) -> Rect {
    Rect {
        min_x: f.min_x,
        min_y: f.min_y,
        max_x: (f.min_x + width) as u32,
        max_y: (f.min_y + height) as u32,
    }
}

/// The score that `free[k]` gives the size.
pub open spec fn score_at(free: Seq<Rect>, width: int, height: int, k: int) -> RectScore {
    RectScore {
        placement: corner_of(free[k], width, height),
        primary: short_side(free[k], width, height) as u32,
        secondary: long_side(free[k], width, height) as u32,
    }
}

/// The first best-fitting free rectangle for the size, when there is one.
pub open spec fn best_index(free: Seq<Rect>, width: int, height: int) -> int {
    choose|k: int| is_best_fit(free, width, height, k)
}

/// The (short side, long side) leftovers of a sprite at its best free
/// rectangle.
pub open spec fn fit_score(free: Seq<Rect>, s: SpriteData) -> (int, int) {
    let w = s.dimensions.0 as int;
    let h = s.dimensions.1 as int;
    let k = best_index(free, w, h);
    (short_side(free[k], w, h), long_side(free[k], w, h))
}

/// Score `a` is strictly lower than score `b`: lower short side, or equal
/// short side and lower long side.
pub open spec fn lower_score(a: (int, int), b: (int, int)) -> bool {
    a.0 < b.0 || (a.0 == b.0 && a.1 < b.1)
}

/// `sprites[i]` is the sprite placed next: it fits some free rectangle, its
/// score is the lowest, and it comes first among the sprites with that
/// score.
pub open spec fn is_next_choice(free: Seq<Rect>, sprites: Seq<SpriteData>, i: int) -> bool {
    &&& 0 <= i < sprites.len()
    &&& !fits_nowhere(free, sprites[i].dimensions.0 as int, sprites[i].dimensions.1 as int)
    &&& is_best_fit(
        free,
        sprites[i].dimensions.0 as int,
        sprites[i].dimensions.1 as int,
        best_index(free, sprites[i].dimensions.0 as int, sprites[i].dimensions.1 as int),
    )
    &&& forall|j: int|
        0 <= j < i && !fits_nowhere(
            free,
            (#[trigger] sprites[j]).dimensions.0 as int,
            sprites[j].dimensions.1 as int,
        ) ==> lower_score(fit_score(free, sprites[i]), fit_score(free, sprites[j]))
    &&& forall|j: int|
        i < j < sprites.len() && !fits_nowhere(
            free,
            (#[trigger] sprites[j]).dimensions.0 as int,
            sprites[j].dimensions.1 as int,
        ) ==> !lower_score(fit_score(free, sprites[j]), fit_score(free, sprites[i]))
}

/// The first best fit is the only one.
proof fn lemma_best_index(free: Seq<Rect>, width: int, height: int, k: int)
    requires
        is_best_fit(free, width, height, k),
    ensures
        best_index(free, width, height) == k,
{
    let b = best_index(free, width, height);
    assert(is_best_fit(free, width, height, b));
    if b < k {
        assert(better_fit(free[k], free[b], width, height));
    } else if k < b {
        assert(better_fit(free[b], free[k], width, height));
    }
}

/// `rest` is `sprites[idx[0]], sprites[idx[1]], ...` with `idx` increasing.
pub open spec fn picks(rest: Seq<SpriteData>, sprites: Seq<SpriteData>, idx: Seq<int>) -> bool {
    &&& idx.len() == rest.len()
    &&& forall|k: int|
        0 <= k < idx.len() ==> 0 <= #[trigger] idx[k] < sprites.len() && rest[k] == sprites[idx[k]]
    &&& forall|a: int, b: int| 0 <= a < b < idx.len() ==> #[trigger] idx[a] < #[trigger] idx[b]
}

/// `rest` is some of `sprites`, in their order.
pub open spec fn is_subsequence(rest: Seq<SpriteData>, sprites: Seq<SpriteData>) -> bool {
    exists|idx: Seq<int>| #[trigger] picks(rest, sprites, idx)
}

/// A sheet that holds one sprite larger than `width` by `height`, alone at
/// the origin, and is exactly its size.
pub open spec fn is_oversized_sheet(r: PackerResult, width: int, height: int) -> bool {
    &&& r.anchors.len() == 1
    &&& (r.anchors[0].dimensions.0 > width || r.anchors[0].dimensions.1 > height)
    &&& r.anchors[0].position == (0u32, 0u32)
    &&& r.dimensions == r.anchors[0].dimensions
}

/// The sprites wider than `width` or taller than `height`, in order.
pub open spec fn oversized_of(sprites: Seq<SpriteData>, width: u32, height: u32) -> Seq<SpriteData>
    decreases sprites.len(),
{
    if sprites.len() == 0 {
        Seq::empty()
    } else if sprites.last().dimensions.0 > width || sprites.last().dimensions.1 > height {
        oversized_of(sprites.drop_last(), width, height).push(sprites.last())
    } else {
        oversized_of(sprites.drop_last(), width, height)
    }
}

/// The sheet of an oversized sprite: the sprite alone at the origin, the
/// sheet exactly its size.
pub open spec fn sheet_of(r: PackerResult, s: SpriteData) -> bool {
    &&& r.dimensions == s.dimensions
    &&& r.anchors@ == seq![SpriteAnchor { id: s.id, position: (0, 0), dimensions: s.dimensions }]
}

/// The sheets from `m` on are those of the oversized sprites `ov`, in order.
pub open spec fn sheets_of(r: Seq<PackerResult>, m: int, ov: Seq<SpriteData>) -> bool {
    &&& r.len() == m + ov.len()
    &&& forall|k: int| 0 <= k < ov.len() ==> sheet_of(#[trigger] r[m + k], ov[k])
}

/// The first `m` sheets fit `width` by `height`; the rest are oversized
/// sheets.
pub open spec fn split_at_oversized(r: Seq<PackerResult>, width: u32, height: u32, m: int) -> bool {
    &&& 0 <= m <= r.len()
    &&& forall|k: int|
        0 <= k < m ==> (#[trigger] r[k]).dimensions.0 <= width && r[k].dimensions.1 <= height
    &&& forall|k: int|
        m <= k < r.len() ==> is_oversized_sheet(#[trigger] r[k], width as int, height as int)
}

/// The pieces of the free rectangle `split` that remain around `place`:
/// above, below, left and right of it, each clipped to `split`.
pub open spec fn residuals(split: Rect, place: Rect) -> Seq<Rect> {
    let across = place.min_x < split.max_x && place.max_x > split.min_x;
    let along = place.min_y < split.max_y && place.max_y > split.min_y;
    let top = if across && place.min_y > split.min_y && place.min_y < split.max_y {
        seq![Rect { min_x: split.min_x, min_y: split.min_y, max_x: split.max_x, max_y: place.min_y }]
    } else {
        Seq::empty()
    };
    let bottom = if across && place.max_y < split.max_y {
        seq![Rect { min_x: split.min_x, min_y: place.max_y, max_x: split.max_x, max_y: split.max_y }]
    } else {
        Seq::empty()
    };
    let left = if along && place.min_x > split.min_x && place.min_x < split.max_x {
        seq![Rect { min_x: split.min_x, min_y: split.min_y, max_x: place.min_x, max_y: split.max_y }]
    } else {
        Seq::empty()
    };
    let right = if along && place.max_x < split.max_x {
        seq![Rect { min_x: place.max_x, min_y: split.min_y, max_x: split.max_x, max_y: split.max_y }]
    } else {
        Seq::empty()
    };
    top + bottom + left + right
}

/// The sprite data that the placements of a bin stand for.
pub open spec fn used_data(used: Seq<(Rect, usize)>) -> Seq<SpriteData> {
    used.map_values(
        |u: (Rect, usize)|
            SpriteData { id: u.1, dimensions: (u.0.width() as u32, u.0.height() as u32) },
    )
}

/// The anchor that a placement becomes.
pub open spec fn anchor_of(u: (Rect, usize)) -> SpriteAnchor {
    SpriteAnchor {
        id: u.1,
        position: (u.0.min_x, u.0.min_y),
        dimensions: (u.0.width() as u32, u.0.height() as u32),
    }
}

/// Sum of the widths of the placed rectangles.
pub open spec fn used_width(used: Seq<(Rect, usize)>) -> int
    decreases used.len(),
{
    if used.len() == 0 {
        0
    } else {
        used_width(used.drop_last()) + used.last().0.width()
    }
}

/// Sum of the heights of the placed rectangles.
pub open spec fn used_height(used: Seq<(Rect, usize)>) -> int
    decreases used.len(),
{
    if used.len() == 0 {
        0
    } else {
        used_height(used.drop_last()) + used.last().0.height()
    }
}

proof fn lemma_used_push(used: Seq<(Rect, usize)>, u: (Rect, usize))
    ensures
        used_width(used.push(u)) == used_width(used) + u.0.width(),
        used_height(used.push(u)) == used_height(used) + u.0.height(),
        used_data(used.push(u)) == used_data(used).push(
            SpriteData { id: u.1, dimensions: (u.0.width() as u32, u.0.height() as u32) },
        ),
{
    assert(used.push(u).drop_last() =~= used);
    assert(used_data(used.push(u)) =~= used_data(used).push(
        SpriteData { id: u.1, dimensions: (u.0.width() as u32, u.0.height() as u32) },
    ));
}

/// `place` sits at the top-left corner of one of the free rectangles and
/// inside it.
pub open spec fn offers(free: Seq<Rect>, place: Rect) -> bool {
    &&& place.wf()
    &&& exists|k: int|
        0 <= k < free.len() && (#[trigger] free[k]).encloses(place) && free[k].min_x == place.min_x
            && free[k].min_y == place.min_y
}

/// Each residual lies in `split`, shares no area with `place`, and starts at
/// an edge of `split` or at the far edge of `place`.
proof fn lemma_residuals(split: Rect, place: Rect)
    requires
        split.wf(),
        place.wf(),
        !split.apart(place),
    ensures
        forall|i: int|
            0 <= i < residuals(split, place).len() ==> {
                let r = #[trigger] residuals(split, place)[i];
                &&& r.wf()
                &&& split.encloses(r)
                &&& r.apart(place)
                &&& r.min_x == split.min_x || r.min_x == place.max_x
                &&& r.min_y == split.min_y || r.min_y == place.max_y
            },
{
}

/// Some rectangle of `rects` encloses `r`.
#[verifier::opaque]
pub open spec fn enclosed_in(rects: Seq<Rect>, r: Rect) -> bool {
    exists|a: int| 0 <= a < rects.len() && (#[trigger] rects[a]).encloses(r)
}

/// Dropping a rectangle that a kept one encloses leaves every rectangle
/// enclosed that was enclosed before.
proof fn lemma_still_enclosed(before: Seq<Rect>, after: Seq<Rect>, gone: int, keeper: Rect, r: Rect)
    requires
        enclosed_in(before, r),
        0 <= gone < before.len(),
        keeper.encloses(before[gone]),
        after.contains(keeper),
        forall|a: int| 0 <= a < before.len() && a != gone ==> after.contains(#[trigger] before[a]),
    ensures
        enclosed_in(after, r),
{
    reveal(enclosed_in);
    let a = choose|a: int| 0 <= a < before.len() && (#[trigger] before[a]).encloses(r);
    if a == gone {
        let k = choose|k: int| 0 <= k < after.len() && after[k] == keeper;
        assert(after[k].encloses(r));
    } else {
        assert(after.contains(before[a]));
        let k = choose|k: int| 0 <= k < after.len() && after[k] == before[a];
        assert(after[k].encloses(r));
    }
}

/// After `swap_remove(x)` every other rectangle is still there.
proof fn lemma_swap_remove_keeps(before: Seq<Rect>, x: int)
    requires
        0 <= x < before.len(),
    ensures
        forall|a: int|
            0 <= a < before.len() && a != x ==> before.update(x, before.last()).drop_last().contains(
                #[trigger] before[a],
            ),
{
    let after = before.update(x, before.last()).drop_last();
    assert forall|a: int| 0 <= a < before.len() && a != x implies after.contains(
        #[trigger] before[a],
    ) by {
        if a == before.len() - 1 {
            assert(after[x] == before[a]);
        } else {
            assert(after[a] == before[a]);
        }
    }
}

/// Drops every rectangle that another one of the list encloses (of two equal
/// rectangles the later one stays); what remains was in the list, no
/// rectangle of it encloses another, and it encloses every rectangle of the
/// list. A list with no enclosed rectangle comes back as it was.
pub fn remove_redundant_rects(rects: &mut Vec<Rect>)
    ensures
        (forall|i: int, j: int|
            0 <= i < old(rects).len() && 0 <= j < old(rects).len() && i != j
                ==> !(#[trigger] old(rects)@[i]).encloses(#[trigger] old(rects)@[j]))
            ==> final(rects)@ == old(rects)@,
        forall|m: int| 0 <= m < old(rects).len() ==> enclosed_in(final(rects)@, #[trigger] old(rects)@[m]),
        forall|i: int| 0 <= i < final(rects).len() ==> old(rects)@.contains(#[trigger] final(rects)[i]),
        final(rects).len() <= old(rects).len(),
        forall|i: int, j: int|
            0 <= i < final(rects).len() && 0 <= j < final(rects).len() && i != j
                ==> !(#[trigger] final(rects)[i]).encloses(#[trigger] final(rects)[j]),
{
    let ghost initial = rects@;
    let mut i: usize = 0;
    assert forall|a: int| 0 <= a < rects.len() implies initial.contains(#[trigger] rects[a]) by {
        assert(rects[a] == initial[a]);
    }
    assert forall|m: int| 0 <= m < initial.len() implies enclosed_in(rects@, #[trigger] initial[m]) by {
        reveal(enclosed_in);
        assert(rects@[m].encloses(initial[m]));
    }
    let ghost no_pairs = forall|a: int, b: int|
        0 <= a < initial.len() && 0 <= b < initial.len() && a != b ==> !(
        #[trigger] initial[a]).encloses(#[trigger] initial[b]);
    while i < rects.len()
        invariant
            no_pairs == (forall|a: int, b: int|
                0 <= a < initial.len() && 0 <= b < initial.len() && a != b ==> !(
                #[trigger] initial[a]).encloses(#[trigger] initial[b])),
            no_pairs ==> rects@ == initial,
            i <= rects.len(),
            forall|m: int| 0 <= m < initial.len() ==> enclosed_in(rects@, #[trigger] initial[m]),
            rects.len() <= initial.len(),
            forall|a: int| 0 <= a < rects.len() ==> initial.contains(#[trigger] rects[a]),
            forall|a: int, b: int|
                0 <= a < i && 0 <= b < rects.len() && a != b ==> !(#[trigger] rects[a]).encloses(
                    #[trigger] rects[b],
                ) && !rects[b].encloses(rects[a]),
        decreases rects.len() - i,
    {
        let next = rects[i];
        let mut contained = false;
        let mut j: usize = i + 1;
        while j < rects.len() && !contained
            invariant
                i < j <= rects.len(),
                next == rects[i as int],
                !contained ==> forall|b: int| i < b < j ==> !(#[trigger] rects[b]).encloses(next),
                contained ==> j < rects.len() && rects[j as int].encloses(next),
            decreases rects.len() - j + (if contained {
                0int
            } else {
                1int
            }),
        {
            if rects[j].contains(&next) {
                contained = true;
            } else {
                j = j + 1;
            }
        }
        if contained {
            assert(!no_pairs);
            let ghost before = rects@;
            let ghost keeper = rects@[j as int];
            rects.swap_remove(i);
            proof {
                lemma_swap_remove_keeps(before, i as int);
                assert(before[j as int] == keeper);
                assert(rects@.contains(keeper));
                assert forall|m: int| 0 <= m < initial.len() implies enclosed_in(
                    rects@,
                    #[trigger] initial[m],
                ) by {
                    lemma_still_enclosed(before, rects@, i as int, keeper, initial[m]);
                }
            }
            assert forall|a: int| 0 <= a < rects.len() implies initial.contains(#[trigger] rects[a]) by {
                if a == i {
                    assert(rects[a] == before[before.len() - 1]);
                } else {
                    assert(rects[a] == before[a]);
                }
            }
            assert forall|a: int, b: int|
                0 <= a < i && 0 <= b < rects.len() && a != b implies !(#[trigger] rects[a]).encloses(
                #[trigger] rects[b],
            ) && !rects[b].encloses(rects[a]) by {
                assert(rects[a] == before[a]);
                if b == i {
                    assert(rects[b] == before[before.len() - 1]);
                } else {
                    assert(rects[b] == before[b]);
                }
            }
            continue;
        }
        let ghost len_before = rects.len();
        let ghost kept = rects@;
        assert(forall|b: int| i < b < kept.len() ==> !(#[trigger] kept[b]).encloses(next));
        assert forall|b: int| i < b < kept.len() implies kept.subrange(i + 1, kept.len() as int).contains(
            #[trigger] kept[b],
        ) by {
            assert(kept.subrange(i + 1, kept.len() as int)[b - i - 1] == kept[b]);
        }
        let mut j: usize = rects.len();
        while j > i + 1
            invariant
                i + 1 <= j <= rects.len(),
                rects.len() <= len_before,
                i < rects.len(),
                rects.len() <= initial.len(),
                next == rects[i as int],
                forall|a: int| 0 <= a <= i ==> #[trigger] rects[a] == kept[a],
                forall|b: int|
                    i < b < rects.len() ==> kept.subrange(i + 1, kept.len() as int).contains(
                        #[trigger] rects[b],
                    ),
                forall|a: int| 0 <= a < rects.len() ==> initial.contains(#[trigger] rects[a]),
                forall|b: int| j <= b < rects.len() ==> !next.encloses(#[trigger] rects[b]),
                no_pairs == (forall|a: int, b: int|
                    0 <= a < initial.len() && 0 <= b < initial.len() && a != b ==> !(
                    #[trigger] initial[a]).encloses(#[trigger] initial[b])),
                no_pairs ==> rects@ == initial,
                forall|m: int| 0 <= m < initial.len() ==> enclosed_in(rects@, #[trigger] initial[m]),
            decreases j,
        {
            j = j - 1;
            if next.contains(&rects[j]) {
                assert(!no_pairs);
                let ghost before = rects@;
                rects.swap_remove(j);
                proof {
                    lemma_swap_remove_keeps(before, j as int);
                    assert(rects@[i as int] == next);
                    assert(rects@.contains(next));
                    assert forall|m: int| 0 <= m < initial.len() implies enclosed_in(
                        rects@,
                        #[trigger] initial[m],
                    ) by {
                        lemma_still_enclosed(before, rects@, j as int, next, initial[m]);
                    }
                }
                assert forall|a: int| 0 <= a < rects.len() implies initial.contains(#[trigger] rects[a]) by {
                    if a == j {
                        assert(rects[a] == before[before.len() - 1]);
                    } else {
                        assert(rects[a] == before[a]);
                    }
                }
                assert forall|b: int| i < b < rects.len() implies kept.subrange(
                    i + 1,
                    kept.len() as int,
                ).contains(#[trigger] rects[b]) by {
                    if b == j {
                        assert(rects[b] == before[before.len() - 1]);
                    } else {
                        assert(rects[b] == before[b]);
                    }
                }
                assert forall|b: int| j <= b < rects.len() implies !next.encloses(#[trigger] rects[b]) by {
                    if b == j {
                        assert(rects[b] == before[before.len() - 1]);
                    } else {
                        assert(rects[b] == before[b]);
                    }
                }
                assert forall|a: int| 0 <= a <= i implies #[trigger] rects[a] == kept[a] by {
                    assert(rects[a] == before[a]);
                }
            }
        }
        assert forall|a: int, b: int|
            0 <= a < i + 1 && 0 <= b < rects.len() && a != b implies !(#[trigger] rects[a]).encloses(
            #[trigger] rects[b],
        ) && !rects[b].encloses(rects[a]) by {
            assert(rects[a] == kept[a]);
            if b <= i {
                assert(rects[b] == kept[b]);
            } else {
                let sub = kept.subrange(i + 1, kept.len() as int);
                assert(sub.contains(rects[b]));
                let m0 = choose|m0: int| 0 <= m0 < sub.len() && sub[m0] == rects[b];
                let m = m0 + i + 1;
                assert(kept[m] == rects[b]);
                if a == i {
                    assert(!kept[m].encloses(next));
                }
            }
        }
        i = i + 1;
    }
}

impl Rect {
    /// The cell at column `x`, row `y` lies in the rectangle.
    pub open spec fn covers(self, x: int, y: int) -> bool {
        self.min_x <= x < self.max_x && self.min_y <= y < self.max_y
    }
}

/// The cell at column `x`, row `y` lies in some free rectangle.
#[verifier::opaque]
pub open spec fn free_at(free: Seq<Rect>, x: int, y: int) -> bool {
    exists|i: int| 0 <= i < free.len() && (#[trigger] free[i]).covers(x, y)
}

/// A cell of `split` outside `place` lies in one of the residuals.
proof fn lemma_residual_cover(split: Rect, place: Rect, x: int, y: int)
    requires
        split.wf(),
        place.wf(),
        !split.apart(place),
        split.covers(x, y),
        !place.covers(x, y),
    ensures
        exists|k: int|
            0 <= k < residuals(split, place).len() && (#[trigger] residuals(split, place)[k]).covers(x, y),
{
    let res = residuals(split, place);
    let t: int = if place.min_y > split.min_y { 1 } else { 0 };
    let b: int = if place.max_y < split.max_y { 1 } else { 0 };
    let l: int = if place.min_x > split.min_x { 1 } else { 0 };
    if y < place.min_y {
        assert(res[0].covers(x, y));
    } else if y >= place.max_y {
        assert(res[t].covers(x, y));
    } else if x < place.min_x {
        assert(res[t + b].covers(x, y));
    } else {
        assert(res[t + b + l].covers(x, y));
    }
}

/// Replacing a free rectangle that meets `place` by its residuals keeps
/// every free cell outside `place` free and frees no new cell.
proof fn lemma_split_step(before: Seq<Rect>, i: int, place: Rect)
    requires
        0 <= i < before.len(),
        before[i].wf(),
        place.wf(),
        !before[i].apart(place),
    ensures
        forall|x: int, y: int|
            #[trigger] free_at(before, x, y) && !place.covers(x, y) ==> free_at(
                before.remove(i) + residuals(before[i], place),
                x,
                y,
            ),
        forall|x: int, y: int|
            #[trigger] free_at(before.remove(i) + residuals(before[i], place), x, y) ==> free_at(
                before,
                x,
                y,
            ),
{
    reveal(free_at);
    let after = before.remove(i) + residuals(before[i], place);
    let res = residuals(before[i], place);
    lemma_residuals(before[i], place);
    assert forall|x: int, y: int| #[trigger] free_at(before, x, y) && !place.covers(x, y) implies free_at(
        after,
        x,
        y,
    ) by {
        let a = choose|a: int| 0 <= a < before.len() && (#[trigger] before[a]).covers(x, y);
        if a < i {
            assert(after[a] == before[a]);
        } else if a > i {
            assert(after[a - 1] == before[a]);
        } else {
            lemma_residual_cover(before[i], place, x, y);
            let k = choose|k: int| 0 <= k < res.len() && (#[trigger] res[k]).covers(x, y);
            assert(after[before.len() - 1 + k] == res[k]);
        }
    }
    assert forall|x: int, y: int| #[trigger] free_at(after, x, y) implies free_at(before, x, y) by {
        let a = choose|a: int| 0 <= a < after.len() && (#[trigger] after[a]).covers(x, y);
        if a < i {
            assert(after[a] == before[a]);
        } else if a < before.len() - 1 {
            assert(after[a] == before[a + 1]);
        } else {
            assert(after[a] == res[a - (before.len() - 1)]);
            assert(before[i].encloses(after[a]));
            assert(before[i].covers(x, y));
        }
    }
}

/// Pruning enclosed rectangles keeps exactly the same cells free.
proof fn lemma_prune_cells(before: Seq<Rect>, after: Seq<Rect>)
    requires
        forall|i: int| 0 <= i < after.len() ==> before.contains(#[trigger] after[i]),
        forall|m: int| 0 <= m < before.len() ==> enclosed_in(after, #[trigger] before[m]),
    ensures
        forall|x: int, y: int| #[trigger] free_at(after, x, y) == free_at(before, x, y),
{
    reveal(free_at);
    reveal(enclosed_in);
    assert forall|x: int, y: int| #[trigger] free_at(after, x, y) == free_at(before, x, y) by {
        if free_at(after, x, y) {
            let a = choose|a: int| 0 <= a < after.len() && (#[trigger] after[a]).covers(x, y);
            assert(before.contains(after[a]));
        }
        if free_at(before, x, y) {
            let m = choose|m: int| 0 <= m < before.len() && (#[trigger] before[m]).covers(x, y);
            assert(enclosed_in(after, before[m]));
            let a = choose|a: int| 0 <= a < after.len() && (#[trigger] after[a]).encloses(before[m]);
            assert(after[a].covers(x, y));
        }
    }
}

/// No free cell lies in a rectangle that every free rectangle is apart from.
proof fn lemma_apart_cells(free: Seq<Rect>, place: Rect)
    requires
        forall|a: int| 0 <= a < free.len() ==> (#[trigger] free[a]).apart(place),
    ensures
        forall|x: int, y: int| #[trigger] free_at(free, x, y) ==> !place.covers(x, y),
{
    reveal(free_at);
    assert forall|x: int, y: int| #[trigger] free_at(free, x, y) implies !place.covers(x, y) by {
        let a = choose|a: int| 0 <= a < free.len() && (#[trigger] free[a]).covers(x, y);
        assert(free[a].apart(place));
    }
}

/// One sheet under construction: its size, the placements made so far and
/// the free rectangles still open.
#[derive(Debug)]
pub struct MaxRectsBin {
    bin_width: u32,
    bin_height: u32,
    used: Vec<(Rect, usize)>,
    free: Vec<Rect>,
}

impl MaxRectsBin {
    pub closed spec fn width(&self) -> u32 {
        self.bin_width
    }

    pub closed spec fn height(&self) -> u32 {
        self.bin_height
    }

    pub closed spec fn used_rects(&self) -> Seq<(Rect, usize)> {
        self.used@
    }

    pub closed spec fn free_rects(&self) -> Seq<Rect> {
        self.free@
    }

    /// The bin's invariant: all rectangles inside the bin, free space apart
    /// from every placement, placements apart from one another, and every
    /// edge within the placed widths and heights laid end to end.
    pub closed spec fn wf(&self) -> bool {
        let free = self.free@;
        let used = self.used@;
        &&& forall|i: int|
            0 <= i < free.len() ==> (#[trigger] free[i]).inside(
                self.bin_width as int,
                self.bin_height as int,
            )
        &&& forall|i: int|
            0 <= i < used.len() ==> (#[trigger] used[i]).0.inside(
                self.bin_width as int,
                self.bin_height as int,
            )
        &&& forall|i: int, j: int|
            0 <= i < free.len() && 0 <= j < used.len() ==> (#[trigger] free[i]).apart(
                (#[trigger] used[j]).0,
            )
        &&& forall|i: int, j: int|
            0 <= i < used.len() && 0 <= j < used.len() && i != j ==> (#[trigger] used[i]).0.apart(
                (#[trigger] used[j]).0,
            )
        &&& forall|i: int|
            0 <= i < free.len() ==> (#[trigger] free[i]).min_x <= used_width(used) && free[i].min_y
                <= used_height(used)
        &&& forall|i: int|
            0 <= i < used.len() ==> (#[trigger] used[i]).0.max_x <= used_width(used)
                && used[i].0.max_y <= used_height(used)
    }

    /// An empty bin: nothing placed, the whole area free.
    pub fn new(width: u32, height: u32) -> (r: Self)
        ensures
            r.wf(),
            r.width() == width,
            r.height() == height,
            r.used_rects().len() == 0,
            r.free_rects() == seq![Rect { min_x: 0, min_y: 0, max_x: width, max_y: height }],
    {
        let mut free: Vec<Rect> = Vec::new();
        free.push(Rect::xywh(0, 0, width, height));
        MaxRectsBin { bin_width: width, bin_height: height, used: Vec::new(), free }
    }

    /// A bin holding one sprite too large for a sheet: the sprite at the
    /// origin, the bin exactly its size, nothing free.
    pub fn oversized(dimensions: (u32, u32), index: usize) -> (r: Self)
        ensures
            r.wf(),
            r.width() == dimensions.0,
            r.height() == dimensions.1,
            r.used_rects() == seq![
                (Rect { min_x: 0, min_y: 0, max_x: dimensions.0, max_y: dimensions.1 }, index),
            ],
            r.free_rects().len() == 0,
    {
        let used_rect = Rect::xywh(0, 0, dimensions.0, dimensions.1);
        let mut used: Vec<(Rect, usize)> = Vec::new();
        used.push((used_rect, index));
        proof {
            lemma_used_push(Seq::empty(), (used_rect, index));
            assert(Seq::<(Rect, usize)>::empty().push((used_rect, index)) =~= used@);
        }
        MaxRectsBin {
            bin_width: dimensions.0,
            bin_height: dimensions.1,
            used,
            free: Vec::new(),
        }
    }

    /// Scores a sprite of `width` by `height` against every free rectangle
    /// by best short side fit and reports the first best one, or that none
    /// can hold the sprite.
    pub fn score_rect(&self, width: u32, height: u32) -> (r: ScoreResult)
        requires
            self.wf(),
        ensures
            r is NoFit ==> fits_nowhere(self.free_rects(), width as int, height as int),
            r matches ScoreResult::FitFound(score) ==> exists|k: int|
                is_best_fit(self.free_rects(), width as int, height as int, k) && score == score_at(
                    self.free_rects(),
                    width as int,
                    height as int,
                    k,
                ),
    {
        let ghost free = self.free@;
        let ghost w = width as int;
        let ghost h = height as int;
        let mut best_short: u32 = u32::MAX;
        let mut best_long: u32 = u32::MAX;
        let mut placement = Rect::new(0, 0, 0, 0);
        let mut fit_found = false;
        let ghost mut best: int = 0;
        let mut i: usize = 0;
        while i < self.free.len()
            invariant
                self.wf(),
                free == self.free@,
                w == width,
                h == height,
                i <= free.len(),
                !fit_found ==> forall|j: int| 0 <= j < i ==> !fits(#[trigger] free[j], w, h),
                fit_found ==> {
                    &&& 0 <= best < i
                    &&& fits(free[best], w, h)
                    &&& forall|j: int|
                        0 <= j < best && fits(#[trigger] free[j], w, h) ==> better_fit(
                            free[best],
                            free[j],
                            w,
                            h,
                        )
                    &&& forall|j: int|
                        best < j < i && fits(#[trigger] free[j], w, h) ==> !better_fit(
                            free[j],
                            free[best],
                            w,
                            h,
                        )
                    &&& best_short == short_side(free[best], w, h)
                    &&& best_long == long_side(free[best], w, h)
                    &&& placement == corner_of(free[best], w, h)
                },
            decreases free.len() - i,
        {
            let rect = self.free[i];
            assert(rect.inside(self.bin_width as int, self.bin_height as int));
            let other_width = rect.max_x - rect.min_x;
            let other_height = rect.max_y - rect.min_y;
            if width <= other_width && height <= other_height {
                let leftover_horiz = other_width - width;
                let leftover_vert = other_height - height;
                let short_side_fit = if leftover_horiz <= leftover_vert {
                    leftover_horiz
                } else {
                    leftover_vert
                };
                let long_side_fit = if leftover_horiz <= leftover_vert {
                    leftover_vert
                } else {
                    leftover_horiz
                };
                if !fit_found || short_side_fit < best_short || (short_side_fit == best_short
                    && long_side_fit < best_long) {
                    best_short = short_side_fit;
                    best_long = long_side_fit;
                    placement = Rect::xywh(rect.min_x, rect.min_y, width, height);
                    proof {
                        best = i as int;
                    }
                    fit_found = true;
                }
            }
            i = i + 1;
        }
        if !fit_found {
            assert(fits_nowhere(free, w, h));
            ScoreResult::NoFit
        } else {
            let score = RectScore { placement, primary: best_short, secondary: best_long };
            assert(self.free_rects() == free);
            assert(score_at(free, w, h, best).placement == placement);
            assert(is_best_fit(self.free_rects(), w, h, best) && score == score_at(
                self.free_rects(),
                w,
                h,
                best,
            ));
            ScoreResult::FitFound(score)
        }
    }

    /// Adds to the free list the residuals of `split` around `place`.
    fn split_rect(&mut self, split: Rect, place: Rect)
        ensures
            final(self).free@ == old(self).free@ + residuals(split, place),
            final(self).used@ == old(self).used@,
            final(self).bin_width == old(self).bin_width,
            final(self).bin_height == old(self).bin_height,
    {
        let ghost start = self.free@;
        let across = place.min_x < split.max_x && place.max_x > split.min_x;
        let along = place.min_y < split.max_y && place.max_y > split.min_y;
        let ghost mut pieces: Seq<Rect> = Seq::empty();
        if across && place.min_y > split.min_y && place.min_y < split.max_y {
            let top = Rect {
                min_x: split.min_x,
                min_y: split.min_y,
                max_x: split.max_x,
                max_y: place.min_y,
            };
            self.free.push(top);
            proof {
                pieces = pieces.push(top);
            }
        }
        let ghost after_top = pieces;
        if across && place.max_y < split.max_y {
            let bottom = Rect {
                min_x: split.min_x,
                min_y: place.max_y,
                max_x: split.max_x,
                max_y: split.max_y,
            };
            self.free.push(bottom);
            proof {
                pieces = pieces.push(bottom);
            }
        }
        let ghost after_bottom = pieces;
        if along && place.min_x > split.min_x && place.min_x < split.max_x {
            let left = Rect {
                min_x: split.min_x,
                min_y: split.min_y,
                max_x: place.min_x,
                max_y: split.max_y,
            };
            self.free.push(left);
            proof {
                pieces = pieces.push(left);
            }
        }
        let ghost after_left = pieces;
        if along && place.max_x < split.max_x {
            let right = Rect {
                min_x: place.max_x,
                min_y: split.min_y,
                max_x: split.max_x,
                max_y: split.max_y,
            };
            self.free.push(right);
            proof {
                pieces = pieces.push(right);
            }
        }
        proof {
            assert(pieces =~= residuals(split, place));
            assert(self.free@ =~= start + pieces);
        }
    }

    /// Places `rect`, which sits at the corner of a free rectangle, for the
    /// sprite `sprite_id`: every free rectangle it overlaps is replaced by its
    /// residuals, enclosed free rectangles are pruned, and the placement is
    /// recorded.
    fn place_rect(&mut self, rect: Rect, sprite_id: usize)
        requires
            old(self).wf(),
            offers(old(self).free@, rect),
        ensures
            final(self).wf(),
            final(self).used@ == old(self).used@.push((rect, sprite_id)),
            final(self).bin_width == old(self).bin_width,
            final(self).bin_height == old(self).bin_height,
            forall|x: int, y: int|
                #[trigger] free_at(final(self).free@, x, y) == (free_at(old(self).free@, x, y)
                    && !rect.covers(x, y)),
            forall|i: int, j: int|
                0 <= i < final(self).free@.len() && 0 <= j < final(self).free@.len() && i != j
                    ==> !(#[trigger] final(self).free@[i]).encloses(#[trigger] final(self).free@[j]),
    {
        let ghost initial_free = self.free@;
        let ghost k0 = choose|k: int|
            0 <= k < self.free@.len() && (#[trigger] self.free@[k]).encloses(rect)
                && self.free@[k].min_x == rect.min_x && self.free@[k].min_y == rect.min_y;
        let ghost f0 = self.free@[k0];
        let ghost used = self.used@;
        let ghost bw = self.bin_width as int;
        let ghost bh = self.bin_height as int;
        let ghost sum_w = used_width(used) + rect.width();
        let ghost sum_h = used_height(used) + rect.height();
        proof {
            assert(f0.inside(bw, bh));
            assert forall|j: int| 0 <= j < used.len() implies rect.apart(#[trigger] used[j].0) by {
                assert(f0.apart(used[j].0));
            }
        }
        let mut to_process = self.free.len();
        let mut i: usize = 0;
        while i < to_process
            invariant
                i <= to_process <= self.free.len(),
                self.used@ == used,
                self.bin_width == bw,
                self.bin_height == bh,
                rect.wf(),
                rect.max_x <= sum_w,
                rect.max_y <= sum_h,
                used_width(used) <= sum_w,
                used_height(used) <= sum_h,
                forall|a: int|
                    0 <= a < self.free.len() ==> {
                        &&& (#[trigger] self.free@[a]).inside(bw, bh)
                        &&& self.free@[a].min_x <= sum_w
                        &&& self.free@[a].min_y <= sum_h
                    },
                forall|a: int, j: int|
                    0 <= a < self.free.len() && 0 <= j < used.len() ==> (
                    #[trigger] self.free@[a]).apart((#[trigger] used[j]).0),
                forall|a: int| 0 <= a < i ==> (#[trigger] self.free@[a]).apart(rect),
                forall|a: int|
                    to_process <= a < self.free.len() ==> (#[trigger] self.free@[a]).apart(rect),
                forall|x: int, y: int|
                    #[trigger] free_at(initial_free, x, y) && !rect.covers(x, y) ==> free_at(
                        self.free@,
                        x,
                        y,
                    ),
                forall|x: int, y: int|
                    #[trigger] free_at(self.free@, x, y) ==> free_at(initial_free, x, y),
            decreases to_process - i,
        {
            if self.free[i].no_intersection(&rect) {
                i = i + 1;
                continue;
            }
            let ghost before = self.free@;
            let to_split = self.free.remove(i);
            proof {
                lemma_residuals(to_split, rect);
            }
            let ghost removed = self.free@;
            self.split_rect(to_split, rect);
            proof {
                let pieces = residuals(to_split, rect);
                assert(before[i as int].wf());
                lemma_split_step(before, i as int, rect);
                assert(self.free@ == before.remove(i as int) + residuals(before[i as int], rect));
                assert forall|x: int, y: int|
                    #[trigger] free_at(initial_free, x, y) && !rect.covers(x, y) implies free_at(
                        self.free@,
                        x,
                        y,
                    ) by {
                    assert(free_at(before, x, y));
                }
                assert forall|x: int, y: int|
                    #[trigger] free_at(self.free@, x, y) implies free_at(initial_free, x, y) by {
                    assert(free_at(before, x, y));
                }
                assert forall|a: int| 0 <= a < self.free.len() implies {
                    &&& (#[trigger] self.free@[a]).inside(bw, bh)
                    &&& self.free@[a].min_x <= sum_w
                    &&& self.free@[a].min_y <= sum_h
                } by {
                    if a < removed.len() {
                        if a < i {
                            assert(self.free@[a] == before[a]);
                        } else {
                            assert(self.free@[a] == before[a + 1]);
                        }
                    } else {
                        assert(self.free@[a] == pieces[a - removed.len()]);
                    }
                }
                assert forall|a: int, j: int|
                    0 <= a < self.free.len() && 0 <= j < used.len() implies (
                    #[trigger] self.free@[a]).apart((#[trigger] used[j]).0) by {
                    if a < removed.len() {
                        if a < i {
                            assert(self.free@[a] == before[a]);
                        } else {
                            assert(self.free@[a] == before[a + 1]);
                        }
                    } else {
                        assert(self.free@[a] == pieces[a - removed.len()]);
                        assert(before[i as int].apart(used[j].0));
                    }
                }
                assert forall|a: int| 0 <= a < i implies (#[trigger] self.free@[a]).apart(rect) by {
                    assert(self.free@[a] == before[a]);
                }
                assert forall|a: int| to_process - 1 <= a < self.free.len() implies (
                #[trigger] self.free@[a]).apart(rect) by {
                    if a < removed.len() {
                        assert(self.free@[a] == before[a + 1]);
                    } else {
                        assert(self.free@[a] == pieces[a - removed.len()]);
                    }
                }
            }
            to_process = to_process - 1;
        }
        let ghost kept = self.free@;
        proof {
            lemma_apart_cells(kept, rect);
        }
        remove_redundant_rects(&mut self.free);
        self.used.push((rect, sprite_id));
        proof {
            lemma_prune_cells(kept, self.free@);
            assert forall|x: int, y: int|
                #[trigger] free_at(self.free@, x, y) == (free_at(initial_free, x, y)
                    && !rect.covers(x, y)) by {
                assert(free_at(self.free@, x, y) == free_at(kept, x, y));
                if free_at(kept, x, y) {
                    assert(!rect.covers(x, y));
                }
            }
            lemma_used_push(used, (rect, sprite_id));
            let new_used = self.used@;
            assert forall|a: int| 0 <= a < self.free@.len() implies {
                &&& (#[trigger] self.free@[a]).inside(bw, bh)
                &&& self.free@[a].min_x <= sum_w
                &&& self.free@[a].min_y <= sum_h
                &&& self.free@[a].apart(rect)
                &&& forall|j: int| 0 <= j < used.len() ==> self.free@[a].apart(#[trigger] used[j].0)
            } by {
                assert(kept.contains(self.free@[a]));
                let m = choose|m: int| 0 <= m < kept.len() && kept[m] == self.free@[a];
                assert(kept[m].inside(bw, bh));
            }
            assert forall|a: int, j: int|
                0 <= a < self.free@.len() && 0 <= j < new_used.len() implies (
                #[trigger] self.free@[a]).apart((#[trigger] new_used[j]).0) by {
                if j < used.len() {
                    assert(new_used[j] == used[j]);
                }
            }
            assert forall|a: int, b: int|
                0 <= a < new_used.len() && 0 <= b < new_used.len() && a != b implies (
                #[trigger] new_used[a]).0.apart((#[trigger] new_used[b]).0) by {
                if a < used.len() && b < used.len() {
                    assert(new_used[a] == used[a]);
                    assert(new_used[b] == used[b]);
                } else if a < used.len() {
                    assert(new_used[a] == used[a]);
                    assert(rect.apart(used[a].0));
                } else if b < used.len() {
                    assert(new_used[b] == used[b]);
                    assert(rect.apart(used[b].0));
                }
            }
            assert forall|a: int| 0 <= a < new_used.len() implies (
            #[trigger] new_used[a]).0.inside(bw, bh) && new_used[a].0.max_x <= used_width(new_used)
                && new_used[a].0.max_y <= used_height(new_used) by {
                if a < used.len() {
                    assert(new_used[a] == used[a]);
                }
            }
        }
    }

    /// A fresh bin of `width` by `height`: nothing placed, all of it free.
    pub open spec fn is_fresh(&self) -> bool {
        &&& self.used_rects().len() == 0
        &&& self.free_rects() == seq![
            Rect { min_x: 0, min_y: 0, max_x: self.width(), max_y: self.height() },
        ]
    }

    /// One round of insertion: scores every sprite of `remaining` and places
    /// the next choice at the corner of its best free rectangle, taking it out
    /// of `remaining`; reports false, changing nothing, when no sprite fits.
    pub fn place_best(&mut self, remaining: &mut Vec<SpriteData>) -> (placed: bool)
        requires
            old(self).wf(),
        ensures
            final(self).wf(),
            final(self).width() == old(self).width(),
            final(self).height() == old(self).height(),
            !placed ==> *final(self) == *old(self) && final(remaining)@ == old(remaining)@,
            !placed ==> forall|a: int|
                0 <= a < old(remaining).len() ==> fits_nowhere(
                    old(self).free_rects(),
                    (#[trigger] old(remaining)[a]).dimensions.0 as int,
                    old(remaining)[a].dimensions.1 as int,
                ),
            placed ==> exists|i: int|
                #[trigger] is_next_choice(old(self).free_rects(), old(remaining)@, i)
                    && final(remaining)@ == old(remaining)@.remove(i) && final(self).used_rects()
                    == old(self).used_rects().push(
                    (
                        corner_of(
                            old(self).free_rects()[best_index(
                                old(self).free_rects(),
                                old(remaining)[i].dimensions.0 as int,
                                old(remaining)[i].dimensions.1 as int,
                            )],
                            old(remaining)[i].dimensions.0 as int,
                            old(remaining)[i].dimensions.1 as int,
                        ),
                        old(remaining)[i].id,
                    ),
                ),
    {
        let ghost free = self.free@;
        let ghost items = remaining@;
        let mut best: Option<(RectScore, usize)> = None;
        let mut i: usize = 0;
        while i < remaining.len()
            invariant
                self.wf(),
                *self == *old(self),
                free == self.free@,
                items == remaining@,
                *remaining == *old(remaining),
                i <= remaining.len(),
                best is None ==> forall|a: int|
                    0 <= a < i ==> fits_nowhere(
                        free,
                        (#[trigger] items[a]).dimensions.0 as int,
                        items[a].dimensions.1 as int,
                    ),
                best matches Some((score, index)) ==> {
                    let s = items[index as int];
                    let w = s.dimensions.0 as int;
                    let h = s.dimensions.1 as int;
                    &&& index < i
                    &&& !fits_nowhere(free, w, h)
                    &&& is_best_fit(free, w, h, best_index(free, w, h))
                    &&& score.placement == corner_of(free[best_index(free, w, h)], w, h)
                    &&& score.primary == fit_score(free, s).0
                    &&& score.secondary == fit_score(free, s).1
                    &&& offers(free, score.placement)
                    &&& score.placement.width() == w
                    &&& score.placement.height() == h
                    &&& forall|j: int|
                        0 <= j < index && !fits_nowhere(
                            free,
                            (#[trigger] items[j]).dimensions.0 as int,
                            items[j].dimensions.1 as int,
                        ) ==> lower_score(fit_score(free, s), fit_score(free, items[j]))
                    &&& forall|j: int|
                        index < j < i && !fits_nowhere(
                            free,
                            (#[trigger] items[j]).dimensions.0 as int,
                            items[j].dimensions.1 as int,
                        ) ==> !lower_score(fit_score(free, items[j]), fit_score(free, s))
                },
            decreases remaining.len() - i,
        {
            let sprite = remaining[i];
            let ghost w = sprite.dimensions.0 as int;
            let ghost h = sprite.dimensions.1 as int;
            match self.score_rect(sprite.dimensions.0, sprite.dimensions.1) {
                ScoreResult::NoFit => {},
                ScoreResult::FitFound(score) => {
                    proof {
                        let k = choose|k: int|
                            is_best_fit(self.free_rects(), w, h, k) && score == score_at(
                                self.free_rects(),
                                w,
                                h,
                                k,
                            );
                        lemma_best_index(free, w, h, k);
                        assert(self.free@[k].inside(self.bin_width as int, self.bin_height as int));
                        assert(self.free@[k].encloses(score.placement));
                        assert(!fits_nowhere(free, w, h));
                    }
                    let better = match best {
                        None => true,
                        Some((current, _)) => score.primary < current.primary || (score.primary
                            == current.primary && score.secondary < current.secondary),
                    };
                    if better {
                        best = Some((score, i));
                    }
                },
            }
            i = i + 1;
        }
        match best {
            None => {
                assert(forall|a: int|
                    0 <= a < items.len() ==> fits_nowhere(
                        free,
                        (#[trigger] items[a]).dimensions.0 as int,
                        items[a].dimensions.1 as int,
                    ));
                false
            },
            Some((score, index)) => {
                let ghost used_before = self.used@;
                let sprite = remaining.remove(index);
                self.place_rect(score.placement, sprite.id);
                proof {
                    let w = items[index as int].dimensions.0 as int;
                    let h = items[index as int].dimensions.1 as int;
                    assert(is_next_choice(free, items, index as int));
                    assert(remaining@ == items.remove(index as int));
                    assert(self.used_rects() == used_before.push(
                        (corner_of(free[best_index(free, w, h)], w, h), items[index as int].id),
                    ));
                    assert(old(self).free_rects() == free);
                    assert(old(self).used_rects() == used_before);
                    assert(old(remaining)@ == items);
                    assert(old(remaining)[index as int] == items[index as int]);
                }
                true
            },
        }
    }

    /// Inserts sprites one at a time, each round placing the sprite whose best
    /// free rectangle scores lowest (first such sprite on ties), until none of
    /// the rest fits anywhere; returns the sprites left over, in order.
    pub fn insert_sprites(&mut self, sprites: &[SpriteData]) -> (rest: Vec<SpriteData>)
        requires
            old(self).wf(),
        ensures
            is_subsequence(rest@, sprites@),
            final(self).wf(),
            final(self).width() == old(self).width(),
            final(self).height() == old(self).height(),
            old(self).used_rects().len() <= final(self).used_rects().len(),
            final(self).used_rects().subrange(0, old(self).used_rects().len() as int)
                == old(self).used_rects(),
            used_data(final(self).used_rects()).to_multiset().add(rest@.to_multiset()) == used_data(
                old(self).used_rects(),
            ).to_multiset().add(sprites@.to_multiset()),
            used_width(final(self).used_rects()) + total_width(rest@) == used_width(
                old(self).used_rects(),
            ) + total_width(sprites@),
            used_height(final(self).used_rects()) + total_height(rest@) == used_height(
                old(self).used_rects(),
            ) + total_height(sprites@),
            forall|k: int| 0 <= k < rest.len() ==> sprites@.contains(#[trigger] rest[k]),
            forall|k: int|
                0 <= k < rest.len() ==> fits_nowhere(
                    final(self).free_rects(),
                    (#[trigger] rest[k]).dimensions.0 as int,
                    rest[k].dimensions.1 as int,
                ),
            old(self).is_fresh() && sprites.len() > 0 && (forall|k: int|
                0 <= k < sprites.len() ==> (#[trigger] sprites[k]).dimensions.0 <= old(
                    self,
                ).width() && sprites[k].dimensions.1 <= old(self).height()) ==> rest.len()
                < sprites.len(),
    {
        let ghost start = *self;
        let ghost fresh = self.is_fresh() && sprites.len() > 0 && (forall|k: int|
            0 <= k < sprites.len() ==> (#[trigger] sprites[k]).dimensions.0 <= self.width()
                && sprites[k].dimensions.1 <= self.height());
        let mut remaining: Vec<SpriteData> = Vec::new();
        let mut k: usize = 0;
        while k < sprites.len()
            invariant
                k <= sprites.len(),
                remaining@ == sprites@.subrange(0, k as int),
            decreases sprites.len() - k,
        {
            remaining.push(sprites[k]);
            k = k + 1;
        }
        assert(remaining@ =~= sprites@);
        let ghost mut idx: Seq<int> = Seq::new(sprites@.len(), |k: int| k);
        let mut done = false;
        while !done && remaining.len() > 0
            invariant
                picks(remaining@, sprites@, idx),
                self.wf(),
                self.bin_width == start.bin_width,
                self.bin_height == start.bin_height,
                start.used@.len() <= self.used@.len(),
                self.used@.subrange(0, start.used@.len() as int) == start.used@,
                used_data(self.used@).to_multiset().add(remaining@.to_multiset()) == used_data(
                    start.used@,
                ).to_multiset().add(sprites@.to_multiset()),
                used_width(self.used@) + total_width(remaining@) == used_width(start.used@)
                    + total_width(sprites@),
                used_height(self.used@) + total_height(remaining@) == used_height(start.used@)
                    + total_height(sprites@),
                forall|a: int| 0 <= a < remaining.len() ==> sprites@.contains(#[trigger] remaining[a]),
                done ==> forall|a: int|
                    0 <= a < remaining.len() ==> fits_nowhere(
                        self.free@,
                        (#[trigger] remaining[a]).dimensions.0 as int,
                        remaining[a].dimensions.1 as int,
                    ),
                fresh ==> remaining.len() < sprites.len() || (remaining@ == sprites@
                    && self.is_fresh()),
                fresh && done ==> remaining.len() < sprites.len(),
                fresh ==> start.is_fresh(),
                fresh ==> sprites.len() > 0,
                fresh ==> forall|a: int|
                    0 <= a < sprites.len() ==> (#[trigger] sprites[a]).dimensions.0
                        <= start.bin_width && sprites[a].dimensions.1 <= start.bin_height,
            decreases remaining.len() + (if done {
                0int
            } else {
                1int
            }),
        {
            let ghost used_before = self.used@;
            let ghost remaining_before = remaining@;
            let ghost free_before = self.free@;
            if self.place_best(&mut remaining) {
                proof {
                    let index = choose|i: int|
                        #[trigger] is_next_choice(free_before, remaining_before, i) && remaining@
                            == remaining_before.remove(i) && self.used@ == used_before.push(
                            (
                                corner_of(
                                    free_before[best_index(
                                        free_before,
                                        remaining_before[i].dimensions.0 as int,
                                        remaining_before[i].dimensions.1 as int,
                                    )],
                                    remaining_before[i].dimensions.0 as int,
                                    remaining_before[i].dimensions.1 as int,
                                ),
                                remaining_before[i].id,
                            ),
                        );
                    let sprite = remaining_before[index];
                    let idx_before = idx;
                    idx = idx_before.remove(index);
                    assert forall|a: int, b: int| 0 <= a < b < idx.len() implies #[trigger] idx[a]
                        < #[trigger] idx[b] by {
                        let a0 = if a < index { a } else { a + 1 };
                        let b0 = if b < index { b } else { b + 1 };
                        assert(idx[a] == idx_before[a0]);
                        assert(idx[b] == idx_before[b0]);
                    }
                    assert forall|k: int| 0 <= k < idx.len() implies 0 <= #[trigger] idx[k] < sprites@.len()
                        && remaining@[k] == sprites@[idx[k]] by {
                        let k0 = if k < index { k } else { k + 1 };
                        assert(idx[k] == idx_before[k0]);
                        assert(remaining@[k] == remaining_before[k0]);
                    }
                    let w = sprite.dimensions.0 as int;
                    let h = sprite.dimensions.1 as int;
                    let k = best_index(free_before, w, h);
                    let place = corner_of(free_before[k], w, h);
                    assert(!fits_nowhere(free_before, w, h));
                    let j = choose|j: int| 0 <= j < free_before.len() && fits(#[trigger] free_before[j], w, h);
                    assert(is_best_fit(free_before, w, h, k));
                    assert(free_before[k].inside(start.bin_width as int, start.bin_height as int)) by {
                        assert(self.used@.len() >= 0);
                    }
                    lemma_used_push(used_before, (place, sprite.id));
                    lemma_totals_remove(remaining_before, index);
                    let placed_data = SpriteData {
                        id: sprite.id,
                        dimensions: (place.width() as u32, place.height() as u32),
                    };
                    assert(placed_data == sprite);
                    assert(used_data(self.used@).to_multiset() == used_data(
                        used_before,
                    ).to_multiset().insert(sprite));
                    assert(remaining@.to_multiset() == remaining_before.to_multiset().remove(sprite));
                    assert(remaining_before.to_multiset().contains(sprite));
                    assert(used_data(self.used@).to_multiset().add(remaining@.to_multiset())
                        =~= used_data(used_before).to_multiset().add(
                        remaining_before.to_multiset(),
                    ));
                    assert(self.used@.subrange(0, start.used@.len() as int) =~= used_before.subrange(
                        0,
                        start.used@.len() as int,
                    ));
                    assert forall|a: int| 0 <= a < remaining.len() implies sprites@.contains(
                        #[trigger] remaining[a],
                    ) by {
                        if a < index {
                            assert(remaining[a] == remaining_before[a]);
                        } else {
                            assert(remaining[a] == remaining_before[a + 1]);
                        }
                    }
                }
            } else {
                proof {
                    assert(remaining@ == remaining_before);
                    if fresh && remaining@ == sprites@ && self.is_fresh() {
                        assert(fits_nowhere(
                            self.free@,
                            remaining[0].dimensions.0 as int,
                            remaining[0].dimensions.1 as int,
                        ));
                        assert(sprites@.contains(remaining[0]));
                        assert(self.free@[0].width() == self.bin_width);
                        assert(fits(
                            self.free@[0],
                            remaining[0].dimensions.0 as int,
                            remaining[0].dimensions.1 as int,
                        ));
                    }
                    if fresh {
                        assert(remaining.len() < sprites.len());
                    }
                }
                done = true;
            }
        }
        assert(picks(remaining@, sprites@, idx));
        remaining
    }

    /// The sheet this bin makes: one anchor per placement, in order, and the
    /// tight bounding size of the placements.
    pub fn to_result(&self) -> (r: PackerResult)
        requires
            self.wf(),
        ensures
            r.anchors@ == self.used_rects().map_values(|u: (Rect, usize)| anchor_of(u)),
            r.dimensions.0 == extent_x(r.anchors@),
            r.dimensions.1 == extent_y(r.anchors@),
            r.dimensions.0 <= used_width(self.used_rects()),
            r.dimensions.0 <= self.width(),
            r.dimensions.1 <= self.height(),
            r.dimensions.1 <= used_height(self.used_rects()),
            sheet_data(r) == used_data(self.used_rects()),
            anchors_inside(r),
            no_overlap(r),
    {
        let ghost expected = self.used@.map_values(|u: (Rect, usize)| anchor_of(u));
        let mut anchors: Vec<SpriteAnchor> = Vec::new();
        let mut w: u32 = 0;
        let mut h: u32 = 0;
        let mut k: usize = 0;
        while k < self.used.len()
            invariant
                self.wf(),
                k <= self.used.len(),
                anchors@ == expected.subrange(0, k as int),
                expected == self.used@.map_values(|u: (Rect, usize)| anchor_of(u)),
                w == extent_x(anchors@),
                h == extent_y(anchors@),
            decreases self.used.len() - k,
        {
            let (rect, id) = self.used[k];
            let anchor = SpriteAnchor {
                id,
                position: (rect.min_x, rect.min_y),
                dimensions: (rect.max_x - rect.min_x, rect.max_y - rect.min_y),
            };
            let right = anchor.position.0 + anchor.dimensions.0;
            let bottom = anchor.position.1 + anchor.dimensions.1;
            proof {
                assert(anchors@.push(anchor).drop_last() =~= anchors@);
                assert(expected.subrange(0, k + 1) =~= expected.subrange(0, k as int).push(anchor));
            }
            anchors.push(anchor);
            if right > w {
                w = right;
            }
            if bottom > h {
                h = bottom;
            }
            k = k + 1;
        }
        proof {
            assert(expected.subrange(0, self.used@.len() as int) =~= expected);
            lemma_extent(anchors@, used_width(self.used@), used_height(self.used@));
            lemma_extent(anchors@, self.bin_width as int, self.bin_height as int);
            assert forall|i: int| 0 <= i < anchors@.len() implies #[trigger] anchors@[i].position.0
                + anchors@[i].dimensions.0 <= used_width(self.used@) && anchors@[i].position.1
                + anchors@[i].dimensions.1 <= used_height(self.used@) by {
                assert(self.used@[i].0.inside(self.bin_width as int, self.bin_height as int));
            }
            if self.used@.len() > 0 {
                assert(self.used@[0].0.max_x <= used_width(self.used@));
            }
            assert(w >= 0);
            assert(sheet_data(PackerResult { dimensions: (w, h), anchors }) =~= used_data(
                self.used@,
            ));
            assert forall|a: int, b: int|
                0 <= a < anchors@.len() && 0 <= b < anchors@.len() && a != b implies !overlap(
                #[trigger] anchors@[a],
                #[trigger] anchors@[b],
            ) by {
                assert(self.used@[a].0.apart(self.used@[b].0));
                assert(self.used@[a].0.wf() && self.used@[b].0.wf());
            }
        }
        PackerResult { dimensions: (w, h), anchors }
    }
}

impl Packer for MaxrectsPacker {
    type Options = MaxrectsOptions;

    open spec fn keeps_apart() -> bool {
        true
    }

    /// No overlap on any sheet; the sheets that fit the preferred size, none
    /// of them empty, then one sheet per oversized sprite in input order.
    open spec fn outcome(sprites: Seq<SpriteData>, options: MaxrectsOptions, r: Seq<PackerResult>) -> bool {
        &&& forall|k: int| 0 <= k < r.len() ==> no_overlap(#[trigger] r[k])
        &&& forall|k: int| 0 <= k < r.len() ==> (#[trigger] r[k]).anchors.len() > 0
        &&& exists|m: int|
            #[trigger] split_at_oversized(r, options.width(), options.height(), m) && sheets_of(
                r,
                m,
                oversized_of(sprites, options.width(), options.height()),
            )
    }

    /// Sprites wider or taller than the preferred size each get a sheet of
    /// their own, after all the others; the rest fill sheets of the preferred
    /// size one after another. Every sheet is the tight bounding box of its
    /// anchors, and no two anchors of a sheet overlap.
    fn pack(sprites: &[SpriteData], options: MaxrectsOptions) -> (r: Vec<PackerResult>)
        ensures
            packs(sprites@, r@),
            forall|k: int|
                0 <= k < r.len() ==> {
                    &&& no_overlap(#[trigger] r[k])
                    &&& r[k].dimensions.0 == extent_x(r[k].anchors@)
                    &&& r[k].dimensions.1 == extent_y(r[k].anchors@)
                },
            forall|i: int|
                0 <= i < sprites.len() && ((#[trigger] sprites[i]).dimensions.0 > options.width()
                    || sprites[i].dimensions.1 > options.height()) ==> exists|k: int|
                    0 <= k < r.len() && (#[trigger] r[k]).dimensions == sprites[i].dimensions
                        && r[k].anchors@ == seq![
                        SpriteAnchor {
                            id: sprites[i].id,
                            position: (0, 0),
                            dimensions: sprites[i].dimensions,
                        },
                    ],
            exists|m: int|
                #[trigger] split_at_oversized(r@, options.width(), options.height(), m) && sheets_of(
                    r@,
                    m,
                    oversized_of(sprites@, options.width(), options.height()),
                ),
            forall|k: int| 0 <= k < r.len() ==> (#[trigger] r[k]).anchors.len() > 0,
    {
        let preferred_width = options.preferred_width;
        let preferred_height = options.preferred_height;
        let mut oversized: Vec<PackerResult> = Vec::new();
        let mut packable: Vec<SpriteData> = Vec::new();
        let ghost all = sprites@;
        let mut i: usize = 0;
        while i < sprites.len()
            invariant
                all == sprites@,
                i <= sprites.len(),
                placed(oversized@).to_multiset().add(packable@.to_multiset())
                    == all.subrange(0, i as int).to_multiset(),
                sheets_of(oversized@, 0, oversized_of(all.subrange(0, i as int), options.width(), options.height())),
                options.width() == preferred_width,
                options.height() == preferred_height,
                total_width(packable@) <= total_width(all.subrange(0, i as int)),
                total_height(packable@) <= total_height(all.subrange(0, i as int)),
                forall|a: int|
                    0 <= a < packable.len() ==> (#[trigger] packable[a]).dimensions.0
                        <= preferred_width && packable[a].dimensions.1 <= preferred_height,
                forall|k: int|
                    0 <= k < oversized.len() ==> {
                        &&& anchors_inside(#[trigger] oversized[k])
                        &&& no_overlap(oversized[k])
                        &&& oversized[k].dimensions.0 == extent_x(oversized[k].anchors@)
                        &&& oversized[k].dimensions.1 == extent_y(oversized[k].anchors@)
                        &&& oversized[k].dimensions.0 <= total_width(all)
                        &&& oversized[k].dimensions.1 <= total_height(all)
                        &&& is_oversized_sheet(oversized[k], preferred_width as int, preferred_height as int)
                    },
                forall|a: int|
                    0 <= a < i && ((#[trigger] all[a]).dimensions.0 > preferred_width
                        || all[a].dimensions.1 > preferred_height) ==> exists|k: int|
                        0 <= k < oversized.len() && (#[trigger] oversized[k]).dimensions
                            == all[a].dimensions && oversized[k].anchors@ == seq![
                            SpriteAnchor { id: all[a].id, position: (0, 0), dimensions: all[a].dimensions },
                        ],
            decreases sprites.len() - i,
        {
            let sprite = sprites[i];
            proof {
                assert(all.subrange(0, i + 1) =~= all.subrange(0, i as int).push(sprite));
                lemma_totals_push(all.subrange(0, i as int), sprite);
                lemma_totals_ge_elem(all, i as int);
            }
            if sprite.dimensions.0 > preferred_width || sprite.dimensions.1 > preferred_height {
                let bin = MaxRectsBin::oversized(sprite.dimensions, sprite.id);
                let result = bin.to_result();
                let ghost before = oversized@;
                oversized.push(result);
                proof {
                    lemma_placed_push_multiset(before, result);
                    assert(sheet_data(result) =~= seq![sprite]);
                    assert(seq![sprite] =~= Seq::<SpriteData>::empty().push(sprite));
                    assert(Seq::<SpriteData>::empty().to_multiset() =~= Multiset::empty());
                    assert(sheet_data(result).to_multiset() =~= Multiset::empty().insert(sprite));
                    assert(all.subrange(0, i + 1).to_multiset() == all.subrange(
                        0,
                        i as int,
                    ).to_multiset().insert(sprite));
                    assert(result.anchors@ =~= seq![
                        SpriteAnchor { id: sprite.id, position: (0, 0), dimensions: sprite.dimensions },
                    ]);
                    assert(result.anchors@.drop_last() =~= Seq::<SpriteAnchor>::empty());
                    assert(extent_x(result.anchors@.drop_last()) == 0);
                    assert(extent_y(result.anchors@.drop_last()) == 0);
                    assert(result.dimensions == sprite.dimensions);
                    let ovb = oversized_of(all.subrange(0, i as int), preferred_width, preferred_height);
                    assert(all.subrange(0, i + 1).drop_last() =~= all.subrange(0, i as int));
                    assert(oversized_of(all.subrange(0, i + 1), preferred_width, preferred_height) == ovb.push(sprite));
                    assert forall|k: int| 0 <= k < ovb.len() + 1 implies sheet_of(
                        #[trigger] oversized@[0 + k],
                        ovb.push(sprite)[k],
                    ) by {
                        if k < ovb.len() {
                            assert(oversized@[k] == before[k]);
                            assert(sheet_of(before[0 + k], ovb[k]));
                        }
                    }
                    assert(placed(oversized@).to_multiset().add(packable@.to_multiset())
                        =~= all.subrange(0, i + 1).to_multiset());
                    assert forall|a: int|
                        0 <= a < i + 1 && ((#[trigger] all[a]).dimensions.0 > preferred_width
                            || all[a].dimensions.1 > preferred_height) implies exists|k: int|
                        0 <= k < oversized.len() && (#[trigger] oversized[k]).dimensions
                            == all[a].dimensions && oversized[k].anchors@ == seq![
                            SpriteAnchor { id: all[a].id, position: (0, 0), dimensions: all[a].dimensions },
                        ] by {
                        if a == i {
                            assert(oversized[oversized.len() - 1] == result);
                        } else {
                            let k = choose|k: int|
                                0 <= k < before.len() && (#[trigger] before[k]).dimensions
                                    == all[a].dimensions && before[k].anchors@ == seq![
                                    SpriteAnchor {
                                        id: all[a].id,
                                        position: (0, 0),
                                        dimensions: all[a].dimensions,
                                    },
                                ];
                            assert(oversized[k] == before[k]);
                        }
                    }
                    assert forall|k: int| 0 <= k < oversized.len() implies {
                        &&& anchors_inside(#[trigger] oversized[k])
                        &&& no_overlap(oversized[k])
                        &&& oversized[k].dimensions.0 == extent_x(oversized[k].anchors@)
                        &&& oversized[k].dimensions.1 == extent_y(oversized[k].anchors@)
                        &&& oversized[k].dimensions.0 <= total_width(all)
                        &&& oversized[k].dimensions.1 <= total_height(all)
                        &&& is_oversized_sheet(oversized[k], preferred_width as int, preferred_height as int)
                    } by {
                        if k < before.len() {
                            assert(oversized[k] == before[k]);
                        }
                    }
                }
            } else {
                let ghost before = packable@;
                packable.push(sprite);
                proof {
                    lemma_totals_push(before, sprite);
                    assert(all.subrange(0, i + 1).drop_last() =~= all.subrange(0, i as int));
                    assert(oversized_of(all.subrange(0, i + 1), preferred_width, preferred_height)
                        == oversized_of(all.subrange(0, i as int), preferred_width, preferred_height));
                    assert(all.subrange(0, i + 1).to_multiset() == all.subrange(
                        0,
                        i as int,
                    ).to_multiset().insert(sprite));
                    assert(placed(oversized@).to_multiset().add(packable@.to_multiset())
                        =~= all.subrange(0, i + 1).to_multiset());
                    assert forall|a: int|
                        0 <= a < i + 1 && ((#[trigger] all[a]).dimensions.0 > preferred_width
                            || all[a].dimensions.1 > preferred_height) implies exists|k: int|
                        0 <= k < oversized.len() && (#[trigger] oversized[k]).dimensions
                            == all[a].dimensions && oversized[k].anchors@ == seq![
                            SpriteAnchor { id: all[a].id, position: (0, 0), dimensions: all[a].dimensions },
                        ] by {
                        if a == i {
                        }
                    }
                }
            }
            i = i + 1;
        }
        proof {
            assert(all.subrange(0, all.len() as int) =~= all);
        }
        let ghost packable_all = packable@;
        let mut results: Vec<PackerResult> = Vec::new();
        while packable.len() > 0
            invariant
                placed(results@).to_multiset().add(packable@.to_multiset())
                    == packable_all.to_multiset(),
                total_width(packable@) <= total_width(all),
                total_height(packable@) <= total_height(all),
                forall|a: int|
                    0 <= a < packable.len() ==> (#[trigger] packable[a]).dimensions.0
                        <= preferred_width && packable[a].dimensions.1 <= preferred_height,
                forall|k: int|
                    0 <= k < results.len() ==> {
                        &&& anchors_inside(#[trigger] results[k])
                        &&& no_overlap(results[k])
                        &&& results[k].dimensions.0 == extent_x(results[k].anchors@)
                        &&& results[k].dimensions.1 == extent_y(results[k].anchors@)
                        &&& results[k].dimensions.0 <= total_width(all)
                        &&& results[k].dimensions.1 <= total_height(all)
                        &&& results[k].dimensions.0 <= preferred_width
                        &&& results[k].dimensions.1 <= preferred_height
                        &&& results[k].anchors.len() > 0
                    },
            decreases packable.len(),
        {
            let mut bin = MaxRectsBin::new(preferred_width, preferred_height);
            let rest = bin.insert_sprites(packable.as_slice());
            let result = bin.to_result();
            proof {
                broadcast use vstd::multiset::group_multiset_axioms;
                assert(used_data(bin.used_rects()).to_multiset().add(rest@.to_multiset()).len()
                    == packable@.to_multiset().len()) by {
                    assert(used_data(Seq::<(Rect, usize)>::empty()).to_multiset() =~= Multiset::empty());
                }
                assert(used_data(bin.used_rects()).len() + rest.len() == packable.len());
                assert(result.anchors.len() > 0);
                lemma_totals_nonneg(rest@);
                assert forall|a: int| 0 <= a < rest.len() implies (#[trigger] rest[a]).dimensions.0
                    <= preferred_width && rest[a].dimensions.1 <= preferred_height by {
                    assert(packable@.contains(rest[a]));
                }
                assert(used_data(Seq::<(Rect, usize)>::empty()) =~= Seq::<SpriteData>::empty());
            }
            let ghost before = results@;
            results.push(result);
            proof {
                lemma_placed_push_multiset(before, result);
                assert(used_data(Seq::<(Rect, usize)>::empty()).to_multiset() =~= Multiset::empty());
                assert(sheet_data(result).to_multiset().add(rest@.to_multiset())
                    =~= packable@.to_multiset());
                assert(placed(results@).to_multiset().add(rest@.to_multiset())
                    =~= packable_all.to_multiset());
                assert forall|k: int| 0 <= k < results.len() implies {
                    &&& anchors_inside(#[trigger] results[k])
                    &&& no_overlap(results[k])
                    &&& results[k].dimensions.0 == extent_x(results[k].anchors@)
                    &&& results[k].dimensions.1 == extent_y(results[k].anchors@)
                    &&& results[k].dimensions.0 <= total_width(all)
                    &&& results[k].dimensions.1 <= total_height(all)
                    &&& results[k].dimensions.0 <= preferred_width
                    &&& results[k].dimensions.1 <= preferred_height
                    &&& results[k].anchors.len() > 0
                } by {
                    if k < before.len() {
                        assert(results[k] == before[k]);
                    }
                }
            }
            packable = rest;
        }
        let ghost normal = results@;
        let ghost extra = oversized@;
        results.append(&mut oversized);
        proof {
            lemma_placed_concat(normal, extra);
            vstd::seq_lib::lemma_multiset_commutative(placed(normal), placed(extra));
            assert(placed(results@).to_multiset() =~= all.to_multiset());
            assert forall|a: int| 0 <= a < results.len() implies {
                &&& anchors_inside(#[trigger] results[a])
                &&& no_overlap(results[a])
                &&& results[a].dimensions.0 == extent_x(results[a].anchors@)
                &&& results[a].dimensions.1 == extent_y(results[a].anchors@)
                &&& results[a].dimensions.0 <= total_width(all)
                &&& results[a].dimensions.1 <= total_height(all)
            } by {
                if a < normal.len() {
                    assert(results[a] == normal[a]);
                } else {
                    assert(results[a] == extra[a - normal.len()]);
                }
            }
            assert forall|a: int|
                0 <= a < all.len() && ((#[trigger] all[a]).dimensions.0 > options.width()
                    || all[a].dimensions.1 > options.height()) implies exists|j: int|
                0 <= j < results.len() && (#[trigger] results[j]).dimensions == all[a].dimensions
                    && results[j].anchors@ == seq![
                    SpriteAnchor { id: all[a].id, position: (0, 0), dimensions: all[a].dimensions },
                ] by {
                let m = choose|m: int|
                    0 <= m < extra.len() && (#[trigger] extra[m]).dimensions
                        == all[a].dimensions && extra[m].anchors@ == seq![
                        SpriteAnchor { id: all[a].id, position: (0, 0), dimensions: all[a].dimensions },
                    ];
                assert(results@[normal.len() + m] == extra[m]);
            }
            let m = normal.len() as int;
            assert forall|k: int| 0 <= k < m implies (#[trigger] results[k]).dimensions.0
                <= options.width() && results[k].dimensions.1 <= options.height() by {
                assert(results[k] == normal[k]);
            }
            assert forall|k: int| m <= k < results.len() implies is_oversized_sheet(
                #[trigger] results[k],
                options.width() as int,
                options.height() as int,
            ) by {
                assert(results[k] == extra[k - m]);
            }
            assert(split_at_oversized(results@, options.width(), options.height(), m));
            let ov = oversized_of(sprites@, options.width(), options.height());
            assert(sheets_of(extra, 0, ov));
            assert forall|k: int| 0 <= k < ov.len() implies sheet_of(#[trigger] results@[m + k], ov[k]) by {
                assert(results@[m + k] == extra[k]);
                assert(sheet_of(extra[0 + k], ov[k]));
            }
            assert forall|k: int| 0 <= k < results.len() implies (#[trigger] results[k]).anchors.len() > 0 by {
                if k < m {
                    assert(results[k] == normal[k]);
                } else {
                    assert(results[k] == extra[k - m]);
                }
            }
        }
        results
    }
}

} // verus!
