use vstd::prelude::*;

use crate::pack::{
    anchor_data, anchors_inside, extent_x, extent_y, lemma_extent, lemma_extent_nonneg, extents_fit, lemma_placed_push, lemma_totals_nonneg,
    lemma_totals_push, lemma_totals_remove, packs, placed, sheet_data, total_height, total_width,
    Packer, PackerResult,
};
use crate::sprite::{SpriteAnchor, SpriteData};

verus! {

broadcast use vstd::seq_lib::group_to_multiset_ensures;

/// The simple packer: a greedy corner heuristic that puts everything on one
/// sheet.
pub struct SimplePacker;

/// The heuristic distance of a free corner from the origin: the sum of the
/// fourth powers of its coordinates.
pub open spec fn corner_key(p: (u32, u32)) -> int {
    p.0 * p.0 * p.0 * p.0 + p.1 * p.1 * p.1 * p.1
}

/// The corners are in ascending order of `corner_key`.
pub open spec fn corners_sorted(corners: Seq<(u32, u32)>) -> bool {
    forall|i: int, j: int|
        0 <= i < j < corners.len() ==> corner_key(#[trigger] corners[i]) <= corner_key(
            #[trigger] corners[j],
        )
}

/// Sprite `i` goes before sprite `j`: larger area, or equal area and later
/// in the input.
pub open spec fn placed_before(sprites: Seq<SpriteData>, i: int, j: int) -> bool {
    area(sprites[i]) > area(sprites[j]) || (area(sprites[i]) == area(sprites[j]) && i > j)
}

/// Sprite `f` goes before every other sprite.
pub open spec fn is_first_placed(sprites: Seq<SpriteData>, f: int) -> bool {
    &&& 0 <= f < sprites.len()
    &&& forall|j: int| 0 <= j < sprites.len() && j != f ==> #[trigger] placed_before(sprites, f, j)
}

/// `x` is 0 or the right edge of a sprite placed so far.
pub open spec fn right_edge_in(slots: Seq<Option<SpriteAnchor>>, x: int) -> bool {
    x == 0 || exists|i: int|
        0 <= i < slots.len() && (#[trigger] slots[i]) is Some && slots[i]->Some_0.position.0
            + slots[i]->Some_0.dimensions.0 == x
}

/// `y` is 0 or the bottom edge of a sprite placed so far.
pub open spec fn bottom_edge_in(slots: Seq<Option<SpriteAnchor>>, y: int) -> bool {
    y == 0 || exists|i: int|
        0 <= i < slots.len() && (#[trigger] slots[i]) is Some && slots[i]->Some_0.position.1
            + slots[i]->Some_0.dimensions.1 == y
}

/// A corner flush against the sprites placed so far, or the sheet's edges.
pub open spec fn corner_ok(slots: Seq<Option<SpriteAnchor>>, c: (u32, u32)) -> bool {
    right_edge_in(slots, c.0 as int) && bottom_edge_in(slots, c.1 as int)
}

/// `b` sits flush: its left side on the sheet's edge or on the right edge of
/// an anchor, and its top on the sheet's edge or on the bottom edge of one.
pub open spec fn flush(anchors: Seq<SpriteAnchor>, b: SpriteAnchor) -> bool {
    &&& b.position.0 == 0 || exists|j: int|
        0 <= j < anchors.len() && (#[trigger] anchors[j]).position.0 + anchors[j].dimensions.0
            == b.position.0
    &&& b.position.1 == 0 || exists|j: int|
        0 <= j < anchors.len() && (#[trigger] anchors[j]).position.1 + anchors[j].dimensions.1
            == b.position.1
}

proof fn lemma_corner_extend(
    before: Seq<Option<SpriteAnchor>>,
    idx: int,
    a: SpriteAnchor,
    c: (u32, u32),
)
    requires
        0 <= idx < before.len(),
        before[idx] is None,
        corner_ok(before, c),
    ensures
        corner_ok(before.update(idx, Some(a)), c),
{
    let after = before.update(idx, Some(a));
    if c.0 != 0 {
        let i = choose|i: int|
            0 <= i < before.len() && (#[trigger] before[i]) is Some && before[i]->Some_0.position.0
                + before[i]->Some_0.dimensions.0 == c.0;
        assert(after[i] == before[i]);
    }
    if c.1 != 0 {
        let i = choose|i: int|
            0 <= i < before.len() && (#[trigger] before[i]) is Some && before[i]->Some_0.position.1
                + before[i]->Some_0.dimensions.1 == c.1;
        assert(after[i] == before[i]);
    }
}

/// The area of a sprite.
pub open spec fn area(s: SpriteData) -> int {
    s.dimensions.0 * s.dimensions.1
}

proof fn lemma_pow4_bound(x: u32)
    ensures
        0 <= x * x * x * x <= u128::MAX,
{
    assert(x * x <= 0xffff_fffe_0000_0001) by (nonlinear_arith)
        requires
            x <= 0xffff_ffff,
    ;
    assert(x * x * x * x == (x * x) * (x * x)) by (nonlinear_arith);
    assert((x * x) * (x * x) <= 0xffff_fffe_0000_0001 * 0xffff_fffe_0000_0001) by (nonlinear_arith)
        requires
            0 <= x * x <= 0xffff_fffe_0000_0001,
    ;
}

/// The fourth power of a coordinate.
fn pow4(x: u32) -> (r: u128)
    ensures
        r == x * x * x * x,
{
    proof {
        lemma_pow4_bound(x);
        assert(x * x <= x * x * x * x || x == 0) by (nonlinear_arith);
        assert(x * x * x <= x * x * x * x || x == 0) by (nonlinear_arith);
    }
    let x = x as u128;
    x * x * x * x
}

/// `corner_key` split into a carry and the low 128 bits.
fn corner_key_parts(p: (u32, u32)) -> (r: (bool, u128))
    ensures
        corner_key(p) == (if r.0 {
            u128::MAX + 1
        } else {
            0
        }) + r.1,
{
    let a = pow4(p.0);
    let b = pow4(p.1);
    if a > u128::MAX - b {
        (true, a - (u128::MAX - b) - 1)
    } else {
        (false, a + b)
    }
}

/// Orders two corners by `corner_key`, as `compare_pos` of the heuristic:
/// true when `a` comes strictly after `b`.
fn compare_pos(a: (u32, u32), b: (u32, u32)) -> (r: bool)
    ensures
        r == (corner_key(a) > corner_key(b)),
{
    let (carry_a, low_a) = corner_key_parts(a);
    let (carry_b, low_b) = corner_key_parts(b);
    if carry_a != carry_b {
        carry_a
    } else {
        low_a > low_b
    }
}

/// Orders two sprites by area: true when `a` is strictly larger.
fn compare_area(a: &SpriteData, b: &SpriteData) -> (r: bool)
    ensures
        r == (area(*a) > area(*b)),
{
    let x = a.dimensions.0 as u64;
    let y = b.dimensions.0 as u64;
    proof {
        assert(a.dimensions.0 * a.dimensions.1 <= 0xffff_fffe_0000_0001) by (nonlinear_arith)
            requires
                a.dimensions.0 <= 0xffff_ffff,
                a.dimensions.1 <= 0xffff_ffff,
        ;
        assert(b.dimensions.0 * b.dimensions.1 <= 0xffff_fffe_0000_0001) by (nonlinear_arith)
            requires
                b.dimensions.0 <= 0xffff_ffff,
                b.dimensions.1 <= 0xffff_ffff,
        ;
    }
    x * (a.dimensions.1 as u64) > y * (b.dimensions.1 as u64)
}

/// Stable insertion sort of the free corners by `corner_key`.
fn sort_corners(corners: &mut Vec<(u32, u32)>)
    ensures
        final(corners)@.to_multiset() == old(corners)@.to_multiset(),
        final(corners).len() == old(corners).len(),
        corners_sorted(final(corners)@),
{
    let ghost initial = corners@;
    let mut i: usize = 1;
    if corners.len() == 0 {
        return;
    }
    while i < corners.len()
        invariant
            1 <= i <= corners.len(),
            corners@.to_multiset() == initial.to_multiset(),
            corners.len() == initial.len(),
            corners_sorted(corners@.subrange(0, i as int)),
        decreases corners.len() - i,
    {
        let mut j: usize = i;
        assert forall|a: int, b: int|
            0 <= a < b <= i && b != j implies corner_key(#[trigger] corners@[a]) <= corner_key(
            #[trigger] corners@[b],
        ) by {
            assert(corners@.subrange(0, i as int)[a] == corners@[a]);
            assert(corners@.subrange(0, i as int)[b] == corners@[b]);
        }
        while j > 0 && compare_pos(corners[j - 1], corners[j])
            invariant
                0 <= j <= i < corners.len(),
                corners@.to_multiset() == initial.to_multiset(),
                corners.len() == initial.len(),
                forall|a: int, b: int|
                    0 <= a < b <= i && b != j ==> corner_key(#[trigger] corners@[a]) <= corner_key(
                        #[trigger] corners@[b],
                    ),
                forall|a: int| j < a <= i ==> corner_key(corners@[j as int]) < corner_key(#[trigger] corners@[a]),
            decreases j,
        {
            let ghost before = corners@;
            let left = corners[j - 1];
            let right = corners[j];
            corners.set(j - 1, right);
            corners.set(j, left);
            proof {
                assert(corners@ =~= before.update(j - 1, right).update(j as int, left));
            }
            j = j - 1;
        }
        assert forall|a: int, b: int|
            0 <= a < b < i + 1 implies corner_key(
            #[trigger] corners@.subrange(0, i + 1)[a],
        ) <= corner_key(#[trigger] corners@.subrange(0, i + 1)[b]) by {
            assert(corners@.subrange(0, i + 1)[a] == corners@[a]);
            assert(corners@.subrange(0, i + 1)[b] == corners@[b]);
            if b == j && a < j {
                assert(corner_key(corners@[a]) <= corner_key(corners@[j - 1]));
            }
        }
        i = i + 1;
    }
    assert(corners@.subrange(0, corners.len() as int) =~= corners@);
}

/// Whether the corner `p` is among `corners`.
fn has_corner(corners: &Vec<(u32, u32)>, p: (u32, u32)) -> (r: bool)
    ensures
        r == corners@.contains(p),
{
    let mut k: usize = 0;
    while k < corners.len()
        invariant
            k <= corners.len(),
            forall|a: int| 0 <= a < k ==> corners@[a] != p,
        decreases corners.len() - k,
    {
        if corners[k].0 == p.0 && corners[k].1 == p.1 {
            return true;
        }
        k = k + 1;
    }
    false
}

/// The anchors are in ascending order of sprite id.
pub open spec fn sorted_by_id(anchors: Seq<SpriteAnchor>) -> bool {
    forall|i: int, j: int|
        0 <= i < j < anchors.len() ==> (#[trigger] anchors[i]).id <= (#[trigger] anchors[j]).id
}

/// Some anchor records the sprite `s` and sits at the origin.
pub open spec fn at_origin(anchors: Seq<SpriteAnchor>, s: SpriteData) -> bool {
    exists|a: int|
        0 <= a < anchors.len() && anchor_data(#[trigger] anchors[a]) == s && anchors[a].position == (
            0u32,
            0u32,
        )
}

/// Stable insertion sort of anchors by sprite id.
fn sort_anchors_by_id(anchors: &mut Vec<SpriteAnchor>)
    ensures
        final(anchors).len() == old(anchors).len(),
        final(anchors)@.to_multiset() == old(anchors)@.to_multiset(),
        final(anchors)@.map_values(|a: SpriteAnchor| anchor_data(a)).to_multiset() == old(
            anchors,
        )@.map_values(|a: SpriteAnchor| anchor_data(a)).to_multiset(),
        sorted_by_id(final(anchors)@),
{
    let ghost initial = anchors@;
    if anchors.len() == 0 {
        return;
    }
    let mut i: usize = 1;
    while i < anchors.len()
        invariant
            1 <= i <= anchors.len(),
            anchors.len() == initial.len(),
            anchors@.to_multiset() == initial.to_multiset(),
            anchors@.map_values(|a: SpriteAnchor| anchor_data(a)).to_multiset() == initial.map_values(
                |a: SpriteAnchor| anchor_data(a),
            ).to_multiset(),
            sorted_by_id(anchors@.subrange(0, i as int)),
        decreases anchors.len() - i,
    {
        let mut j: usize = i;
        assert forall|a: int, b: int| 0 <= a < b <= i && b != j implies (#[trigger] anchors@[a]).id
            <= (#[trigger] anchors@[b]).id by {
            assert(anchors@.subrange(0, i as int)[a] == anchors@[a]);
            assert(anchors@.subrange(0, i as int)[b] == anchors@[b]);
        }
        while j > 0 && anchors[j - 1].id > anchors[j].id
            invariant
                0 <= j <= i < anchors.len(),
                anchors.len() == initial.len(),
                anchors@.to_multiset() == initial.to_multiset(),
                anchors@.map_values(|a: SpriteAnchor| anchor_data(a)).to_multiset()
                    == initial.map_values(|a: SpriteAnchor| anchor_data(a)).to_multiset(),
                forall|a: int, b: int|
                    0 <= a < b <= i && b != j ==> (#[trigger] anchors@[a]).id <= (
                    #[trigger] anchors@[b]).id,
                forall|a: int| j < a <= i ==> anchors@[j as int].id < (#[trigger] anchors@[a]).id,
            decreases j,
        {
            let ghost before = anchors@;
            let left = anchors[j - 1];
            let right = anchors[j];
            anchors.set(j - 1, right);
            anchors.set(j, left);
            proof {
                assert(anchors@ =~= before.update(j - 1, right).update(j as int, left));
                assert(anchors@.map_values(|a: SpriteAnchor| anchor_data(a)) =~= before.map_values(
                    |a: SpriteAnchor| anchor_data(a),
                ).update(j - 1, anchor_data(right)).update(j as int, anchor_data(left)));
            }
            j = j - 1;
        }
        assert forall|a: int, b: int| 0 <= a < b < i + 1 implies (
        #[trigger] anchors@.subrange(0, i + 1)[a]).id <= (#[trigger] anchors@.subrange(
            0,
            i + 1,
        )[b]).id by {
            assert(anchors@.subrange(0, i + 1)[a] == anchors@[a]);
            assert(anchors@.subrange(0, i + 1)[b] == anchors@[b]);
            if b == j && a < j {
                assert(anchors@[a].id <= anchors@[j - 1].id);
            }
        }
        i = i + 1;
    }
    assert(anchors@.subrange(0, anchors.len() as int) =~= anchors@);
}

/// Two sequences with the same elements reach the same extents.
proof fn lemma_extent_same_members(a: Seq<SpriteAnchor>, b: Seq<SpriteAnchor>)
    requires
        forall|i: int| 0 <= i < a.len() ==> b.contains(#[trigger] a[i]),
        forall|i: int| 0 <= i < b.len() ==> a.contains(#[trigger] b[i]),
    ensures
        extent_x(a) == extent_x(b),
        extent_y(a) == extent_y(b),
{
    lemma_extent_nonneg(a);
    lemma_extent_nonneg(b);
    lemma_extent(a, 0, 0);
    lemma_extent(b, 0, 0);
    assert forall|i: int| 0 <= i < a.len() implies (#[trigger] a[i]).position.0 + a[i].dimensions.0
        <= extent_x(b) && a[i].position.1 + a[i].dimensions.1 <= extent_y(b) by {
        let k = choose|k: int| 0 <= k < b.len() && b[k] == a[i];
    }
    assert forall|i: int| 0 <= i < b.len() implies (#[trigger] b[i]).position.0 + b[i].dimensions.0
        <= extent_x(a) && b[i].position.1 + b[i].dimensions.1 <= extent_y(a) by {
        let k = choose|k: int| 0 <= k < a.len() && a[k] == b[i];
    }
    lemma_extent(a, extent_x(b), extent_y(b));
    lemma_extent(b, extent_x(a), extent_y(a));
}

/// Flushness carries over to a sequence with the same elements.
proof fn lemma_flush_same_members(a: Seq<SpriteAnchor>, b: Seq<SpriteAnchor>)
    requires
        forall|i: int| 0 <= i < a.len() ==> b.contains(#[trigger] a[i]),
        forall|i: int| 0 <= i < b.len() ==> a.contains(#[trigger] b[i]),
        forall|i: int| 0 <= i < a.len() ==> flush(a, #[trigger] a[i]),
    ensures
        forall|i: int| 0 <= i < b.len() ==> flush(b, #[trigger] b[i]),
{
    assert forall|i: int| 0 <= i < b.len() implies flush(b, #[trigger] b[i]) by {
        let k = choose|k: int| 0 <= k < a.len() && a[k] == b[i];
        assert(flush(a, a[k]));
        if b[i].position.0 != 0 {
            let j = choose|j: int|
                0 <= j < a.len() && (#[trigger] a[j]).position.0 + a[j].dimensions.0 == b[i].position.0;
            assert(b.contains(a[j]));
            let m = choose|m: int| 0 <= m < b.len() && b[m] == a[j];
            assert(b[m].position.0 + b[m].dimensions.0 == b[i].position.0);
        }
        if b[i].position.1 != 0 {
            let j = choose|j: int|
                0 <= j < a.len() && (#[trigger] a[j]).position.1 + a[j].dimensions.1 == b[i].position.1;
            assert(b.contains(a[j]));
            let m = choose|m: int| 0 <= m < b.len() && b[m] == a[j];
            assert(b[m].position.1 + b[m].dimensions.1 == b[i].position.1);
        }
    }
}

impl Packer for SimplePacker {
    type Options = ();

    /// The corner heuristic may place a sprite over another: sprites of
    /// 4 by 4, 3 by 5 and 7 by 2 put the third over the second.
    open spec fn keeps_apart() -> bool {
        false
    }

    /// One sheet, its anchors in id order and flush against one another or
    /// the sheet's edges, the first sprite placed at the origin.
    open spec fn outcome(sprites: Seq<SpriteData>, options: (), r: Seq<PackerResult>) -> bool {
        &&& r.len() == 1
        &&& sorted_by_id(r[0].anchors@)
        &&& sprites.len() == 0 ==> r[0].dimensions == (0u32, 0u32)
        &&& forall|f: int| #[trigger] is_first_placed(sprites, f) ==> at_origin(r[0].anchors@, sprites[f])
        &&& forall|i: int| 0 <= i < r[0].anchors.len() ==> flush(r[0].anchors@, #[trigger] r[0].anchors[i])
    }

    /// Places sprites from the largest area down (on equal areas the later
    /// sprite first), each at the first free corner, the corners kept in
    /// ascending order of `corner_key`. The single sheet reaches the farthest
    /// free corner and the farthest anchor edge, which comes to the bounding
    /// box of the anchors; anchor `i` belongs to sprite `i`.
    fn pack(sprites: &[SpriteData], _options: ()) -> (r: Vec<PackerResult>)
        ensures
            packs(sprites@, r@),
            r.len() == 1,
            sorted_by_id(r[0].anchors@),
            sprites.len() == 0 ==> r[0].dimensions == (0u32, 0u32),
            forall|f: int| #[trigger] is_first_placed(sprites@, f) ==> at_origin(r[0].anchors@, sprites@[f]),
            forall|i: int| 0 <= i < r[0].anchors.len() ==> flush(r[0].anchors@, #[trigger] r[0].anchors[i]),
            r[0].dimensions.0 == extent_x(r[0].anchors@),
            r[0].dimensions.1 == extent_y(r[0].anchors@),
    {
        let n = sprites.len();
        let ghost all = sprites@;
        let mut remaining: Vec<usize> = Vec::new();
        let mut slots: Vec<Option<SpriteAnchor>> = Vec::new();
        let mut k: usize = 0;
        while k < n
            invariant
                n == sprites.len(),
                k <= n,
                remaining.len() == k,
                slots.len() == k,
                forall|a: int| 0 <= a < k ==> remaining[a] == a,
                forall|a: int| 0 <= a < k ==> slots[a] is None,
            decreases n - k,
        {
            remaining.push(k);
            slots.push(None);
            k = k + 1;
        }
        let mut free: Vec<(u32, u32)> = Vec::new();
        free.push((0, 0));
        let mut right_edge: u32 = 0;
        let mut bottom_edge: u32 = 0;
        let ghost mut done_seq: Seq<SpriteData> = Seq::empty();
        let ghost mut rest_seq: Seq<SpriteData> = all;
        proof {
            assert forall|i: int| 0 <= i < n implies (#[trigger] slots[i] is None) == remaining@.contains(
                i as usize,
            ) by {
                assert(remaining@[i] == i);
            }
            assert forall|i: usize| i < n implies #[trigger] remaining@.contains(i) by {
                assert(remaining@[i as int] == i);
            }
            assert(free@ =~= seq![(0u32, 0u32)]);
            assert(corner_ok(slots@, (0u32, 0u32)));
            assert(corner_ok(slots@, (right_edge, bottom_edge)));
        }
        while remaining.len() > 0
            invariant
                n == sprites.len(),
                all == sprites@,
                extents_fit(all),
                slots.len() == n,
                forall|a: int| 0 <= a < remaining.len() ==> #[trigger] remaining[a] < n,
                forall|a: int, b: int|
                    0 <= a < remaining.len() && 0 <= b < remaining.len() && a != b ==> #[trigger] remaining[a]
                        != #[trigger] remaining[b],
                rest_seq.len() == remaining.len(),
                forall|a: int| 0 <= a < remaining.len() ==> #[trigger] rest_seq[a] == all[remaining[a] as int],
                total_width(done_seq) + total_width(rest_seq) == total_width(all),
                total_height(done_seq) + total_height(rest_seq) == total_height(all),
                forall|i: int| 0 <= i < n ==> (#[trigger] slots[i] is None) == remaining@.contains(i as usize),
                forall|i: int|
                    0 <= i < n && #[trigger] slots[i] is Some ==> {
                        let a = slots[i]->Some_0;
                        &&& anchor_data(a) == all[i]
                        &&& a.position.0 + a.dimensions.0 <= right_edge
                        &&& a.position.1 + a.dimensions.1 <= bottom_edge
                    },
                right_edge <= total_width(done_seq),
                bottom_edge <= total_height(done_seq),
                remaining.len() <= n,
                corner_ok(slots@, (right_edge, bottom_edge)),
                forall|a: int| 0 <= a < free.len() ==> corner_ok(slots@, #[trigger] free[a]),
                forall|i: int|
                    0 <= i < n && #[trigger] slots[i] is Some ==> corner_ok(
                        slots@,
                        slots[i]->Some_0.position,
                    ),
                remaining.len() == n ==> free@ == seq![(0u32, 0u32)],
                remaining.len() == n ==> forall|i: usize| i < n ==> #[trigger] remaining@.contains(i),
                forall|f: int|
                    #[trigger] is_first_placed(all, f) && remaining.len() < n ==> slots[f] is Some
                        && slots[f]->Some_0.position == (0u32, 0u32),
                free.len() >= 1,
                forall|a: int|
                    0 <= a < free.len() ==> (#[trigger] free[a]).0 <= total_width(done_seq) && free[a].1
                        <= total_height(done_seq),
            decreases remaining.len(),
        {
            proof {
                lemma_totals_nonneg(done_seq);
                lemma_totals_nonneg(rest_seq);
            }
            let mut p: usize = 0;
            let mut q: usize = 1;
            while q < remaining.len()
                invariant
                    p < q <= remaining.len(),
                    n == sprites.len(),
                    all == sprites@,
                    forall|a: int| 0 <= a < remaining.len() ==> #[trigger] remaining[a] < n,
                    forall|t: int|
                        0 <= t < q && t != p ==> #[trigger] placed_before(
                            all,
                            remaining[p as int] as int,
                            remaining[t] as int,
                        ) || remaining[p as int] == remaining[t],
                decreases remaining.len() - q,
            {
                let candidate = sprites[remaining[q]];
                let current = sprites[remaining[p]];
                let ghost cq = remaining[q as int] as int;
                let ghost cp = remaining[p as int] as int;
                assert(candidate == all[cq] && current == all[cp]);
                if compare_area(&candidate, &current) || (!compare_area(&current, &candidate)
                    && remaining[q] > remaining[p]) {
                    proof {
                        assert(placed_before(all, cq, cp));
                        assert forall|t: int|
                            0 <= t < q + 1 && t != q implies #[trigger] placed_before(
                                all,
                                cq,
                                remaining[t] as int,
                            ) || cq == remaining[t] by {
                            if t != p {
                                assert(placed_before(all, cp, remaining[t] as int) || cp
                                    == remaining[t]);
                            }
                        }
                    }
                    p = q;
                } else {
                    proof {
                        assert(placed_before(all, cp, cq) || cp == cq);
                    }
                }
                q = q + 1;
            }
            let ghost before = remaining@;
            let ghost rest_before = rest_seq;
            let ghost done_before = done_seq;
            let idx = remaining.remove(p);
            let sprite = sprites[idx];
            proof {
                lemma_totals_remove(rest_before, p as int);
                lemma_totals_push(done_before, sprite);
                lemma_totals_nonneg(rest_before.remove(p as int));
                rest_seq = rest_before.remove(p as int);
                done_seq = done_before.push(sprite);
                assert(rest_before[p as int] == sprite);
            }
            let next_free = free[0];
            let ghost first_round = before.len() == n;
            proof {
                if first_round {
                    assert forall|j: int| 0 <= j < n && j != idx implies #[trigger] placed_before(
                        all,
                        idx as int,
                        j,
                    ) by {
                        assert(before.contains(j as usize));
                        assert(0 <= j);
                        let t = choose|t: int| 0 <= t < before.len() && before[t] == j as usize;
                        assert(placed_before(all, before[p as int] as int, before[t] as int)
                            || before[p as int] == before[t]);
                    }
                    assert(is_first_placed(all, idx as int));
                    assert(next_free == (0u32, 0u32));
                }
            }
            let w = sprite.dimensions.0;
            let h = sprite.dimensions.1;
            let anchor = SpriteAnchor { id: sprite.id, position: next_free, dimensions: sprite.dimensions };
            let right = next_free.0 + w;
            let bottom = next_free.1 + h;
            let ghost slots_before = slots@;
            let ghost edges_before = (right_edge, bottom_edge);
            slots.set(idx, Some(anchor));
            if right > right_edge {
                right_edge = right;
            }
            if bottom > bottom_edge {
                bottom_edge = bottom;
            }
            proof {
                assert(slots@ == slots_before.update(idx as int, Some(anchor)));
                assert(slots_before[idx as int] is None) by {
                    assert(before[p as int] == idx);
                    assert(before.contains(idx));
                }
                assert(corner_ok(slots_before, next_free));
                assert forall|a: int| 0 <= a < free.len() implies corner_ok(slots@, #[trigger] free[a]) by {
                    lemma_corner_extend(slots_before, idx as int, anchor, free[a]);
                }
                assert forall|i: int|
                    0 <= i < n && #[trigger] slots[i] is Some implies corner_ok(
                    slots@,
                    slots[i]->Some_0.position,
                ) by {
                    if i == idx {
                        lemma_corner_extend(slots_before, idx as int, anchor, next_free);
                    } else {
                        assert(slots[i] == slots_before[i]);
                        lemma_corner_extend(slots_before, idx as int, anchor, slots_before[i]->Some_0.position);
                    }
                }
                assert(slots@[idx as int] is Some);
                assert(right_edge_in(slots@, right as int));
                assert(bottom_edge_in(slots@, bottom as int));
                lemma_corner_extend(slots_before, idx as int, anchor, edges_before);
                assert(corner_ok(slots@, (right_edge, bottom_edge)));
                assert forall|a: int, b: int|
                    0 <= a < remaining.len() && 0 <= b < remaining.len() && a != b implies #[trigger] remaining[a]
                        != #[trigger] remaining[b] by {
                    let a0 = if a < p { a } else { a + 1 };
                    let b0 = if b < p { b } else { b + 1 };
                    assert(remaining[a] == before[a0]);
                    assert(remaining[b] == before[b0]);
                }
                assert forall|a: int| 0 <= a < remaining.len() implies #[trigger] remaining[a] < n by {
                    if a < p {
                        assert(remaining[a] == before[a]);
                    } else {
                        assert(remaining[a] == before[a + 1]);
                    }
                }
                assert forall|a: int| 0 <= a < remaining.len() implies #[trigger] rest_seq[a] == all[remaining[a] as int] by {
                    if a < p {
                        assert(remaining[a] == before[a]);
                        assert(rest_seq[a] == rest_before[a]);
                    } else {
                        assert(remaining[a] == before[a + 1]);
                        assert(rest_seq[a] == rest_before[a + 1]);
                    }
                }
                assert forall|i: int| 0 <= i < n implies (#[trigger] slots[i] is None) == remaining@.contains(
                    i as usize,
                ) by {
                    if i == idx {
                        if remaining@.contains(i as usize) {
                            let m = choose|m: int| 0 <= m < remaining.len() && remaining@[m] == i as usize;
                            if m < p {
                                assert(remaining[m] == before[m]);
                            } else {
                                assert(remaining[m] == before[m + 1]);
                            }
                        }
                    } else {
                        assert(slots[i] == slots_before[i]);
                        if before.contains(i as usize) {
                            let m = choose|m: int| 0 <= m < before.len() && before[m] == i as usize;
                            if m < p {
                                assert(remaining@[m] == i as usize);
                            } else {
                                assert(m != p);
                                assert(remaining@[m - 1] == i as usize);
                            }
                        }
                        if remaining@.contains(i as usize) {
                            let m = choose|m: int| 0 <= m < remaining.len() && remaining@[m] == i as usize;
                            if m < p {
                                assert(before[m] == i as usize);
                            } else {
                                assert(before[m + 1] == i as usize);
                            }
                        }
                    }
                }
                assert forall|f: int|
                    #[trigger] is_first_placed(all, f) && remaining.len() < n implies slots[f] is Some
                        && slots[f]->Some_0.position == (0u32, 0u32) by {
                    if first_round {
                        if f != idx {
                            assert(placed_before(all, f, idx as int));
                            assert(placed_before(all, idx as int, f));
                        }
                    } else {
                        assert(slots_before[f] is Some);
                        if f == idx {
                            assert(before[p as int] == idx);
                            assert(before.contains(idx));
                        }
                        assert(slots[f] == slots_before[f]);
                    }
                }
                assert forall|i: int|
                    0 <= i < n && #[trigger] slots[i] is Some implies {
                        let a = slots[i]->Some_0;
                        &&& anchor_data(a) == all[i]
                        &&& a.position.0 + a.dimensions.0 <= right_edge
                        &&& a.position.1 + a.dimensions.1 <= bottom_edge
                    } by {
                    if i != idx {
                        assert(slots[i] == slots_before[i]);
                    }
                }
            }
            let mut new_right = (right, next_free.1);
            let mut new_bottom = (next_free.0, bottom);
            let ghost placed_slots = slots@;
            let end = free.len() - 1;
            let mut i: usize = 1;
            while i < end && i < free.len()
                invariant
                    1 <= i,
                    free.len() >= 1,
                    free[0] == next_free,
                    slots@ == placed_slots,
                    corner_ok(placed_slots, new_right),
                    corner_ok(placed_slots, new_bottom),
                    forall|a: int| 0 <= a < free.len() ==> corner_ok(placed_slots, #[trigger] free[a]),
                    new_right.0 <= total_width(done_seq),
                    new_right.1 <= total_height(done_seq),
                    new_bottom.0 <= total_width(done_seq),
                    new_bottom.1 <= total_height(done_seq),
                    forall|a: int|
                        0 <= a < free.len() ==> (#[trigger] free[a]).0 <= total_width(done_seq)
                            && free[a].1 <= total_height(done_seq),
                decreases end - i,
            {
                let corner = free[i];
                if corner.0 >= free[0].0 && corner.0 <= new_right.0 {
                    if corner.1 < new_right.1 {
                        new_right.1 = corner.1;
                    }
                    let ghost free_before = free@;
                    free.remove(i);
                    proof {
                        assert forall|a: int| 0 <= a < free.len() implies (#[trigger] free[a]).0
                            <= total_width(done_seq) && free[a].1 <= total_height(done_seq)
                            && corner_ok(placed_slots, free[a]) by {
                            if a < i {
                                assert(free[a] == free_before[a]);
                            } else {
                                assert(free[a] == free_before[a + 1]);
                            }
                        }
                        assert(corner_ok(placed_slots, free_before[i as int]));
                    }
                } else if corner.1 >= free[0].1 && corner.1 <= new_bottom.1 {
                    if corner.0 < new_bottom.0 {
                        new_bottom.0 = corner.0;
                    }
                    let ghost free_before = free@;
                    free.remove(i);
                    proof {
                        assert forall|a: int| 0 <= a < free.len() implies (#[trigger] free[a]).0
                            <= total_width(done_seq) && free[a].1 <= total_height(done_seq)
                            && corner_ok(placed_slots, free[a]) by {
                            if a < i {
                                assert(free[a] == free_before[a]);
                            } else {
                                assert(free[a] == free_before[a + 1]);
                            }
                        }
                        assert(corner_ok(placed_slots, free_before[i as int]));
                    }
                }
                i = i + 1;
            }
            let ghost free_before = free@;
            free.remove(0);
            proof {
                assert forall|a: int| 0 <= a < free.len() implies (#[trigger] free[a]).0
                    <= total_width(done_seq) && free[a].1 <= total_height(done_seq)
                    && corner_ok(slots@, free[a]) by {
                    assert(free[a] == free_before[a + 1]);
                }
            }
            if !has_corner(&free, new_right) {
                free.push(new_right);
            }
            if !has_corner(&free, new_bottom) {
                free.push(new_bottom);
            }
            proof {
                if free.len() == 0 {
                    assert(free@.contains(new_bottom));
                }
            }
            let ghost unsorted = free@;
            sort_corners(&mut free);
            proof {
                assert forall|a: int| 0 <= a < free.len() implies (#[trigger] free[a]).0
                    <= total_width(done_seq) && free[a].1 <= total_height(done_seq)
                    && corner_ok(slots@, free[a]) by {
                    assert(free@.to_multiset().count(free[a]) > 0);
                    assert(unsorted.to_multiset().count(free[a]) > 0);
                    assert(unsorted.contains(free[a]));
                    let m = choose|m: int| 0 <= m < unsorted.len() && unsorted[m] == free[a];
                    assert(corner_ok(slots@, unsorted[m]));
                }
            }
        }
        proof {
            assert forall|a: int| 0 <= a < free.len() implies (#[trigger] free[a]).0 <= right_edge
                && free[a].1 <= bottom_edge by {
                assert(corner_ok(slots@, free[a]));
                if free[a].0 != 0 {
                    let i = choose|i: int|
                        0 <= i < slots@.len() && (#[trigger] slots@[i]) is Some
                            && slots@[i]->Some_0.position.0 + slots@[i]->Some_0.dimensions.0
                            == free[a].0;
                    assert(slots[i] is Some);
                }
                if free[a].1 != 0 {
                    let i = choose|i: int|
                        0 <= i < slots@.len() && (#[trigger] slots@[i]) is Some
                            && slots@[i]->Some_0.position.1 + slots@[i]->Some_0.dimensions.1
                            == free[a].1;
                    assert(slots[i] is Some);
                }
            }
        }
        let mut width: u32 = right_edge;
        let mut height: u32 = bottom_edge;
        let mut c: usize = 0;
        while c < free.len()
            invariant
                width <= total_width(done_seq),
                height <= total_height(done_seq),
                right_edge == width,
                bottom_edge == height,
                forall|a: int|
                    0 <= a < free.len() ==> (#[trigger] free[a]).0 <= right_edge && free[a].1
                        <= bottom_edge,
                forall|a: int|
                    0 <= a < free.len() ==> (#[trigger] free[a]).0 <= total_width(done_seq) && free[a].1
                        <= total_height(done_seq),
            decreases free.len() - c,
        {
            if free[c].0 > width {
                width = free[c].0;
            }
            if free[c].1 > height {
                height = free[c].1;
            }
            c = c + 1;
        }
        assert forall|f: int| #[trigger] is_first_placed(all, f) implies slots[f] is Some
            && slots[f]->Some_0.position == (0u32, 0u32) by {
            assert(remaining.len() < n);
        }
        let mut anchors: Vec<SpriteAnchor> = Vec::new();
        let mut a: usize = 0;
        while a < n
            invariant
                n == sprites.len(),
                all == sprites@,
                slots.len() == n,
                remaining.len() == 0,
                a <= n,
                anchors.len() == a,
                forall|i: int| 0 <= i < n ==> (#[trigger] slots[i] is None) == remaining@.contains(i as usize),
                forall|i: int|
                    0 <= i < n && #[trigger] slots[i] is Some ==> {
                        let s = slots[i]->Some_0;
                        &&& anchor_data(s) == all[i]
                        &&& s.position.0 + s.dimensions.0 <= width
                        &&& s.position.1 + s.dimensions.1 <= height
                    },
                forall|f: int|
                    #[trigger] is_first_placed(all, f) ==> slots[f] is Some && slots[f]->Some_0.position
                        == (0u32, 0u32),
                forall|i: int| 0 <= i < a ==> #[trigger] anchors[i] == slots[i]->Some_0,
                forall|i: int|
                    0 <= i < a ==> {
                        &&& anchor_data(#[trigger] anchors[i]) == all[i]
                        &&& anchors[i].position.0 + anchors[i].dimensions.0 <= width
                        &&& anchors[i].position.1 + anchors[i].dimensions.1 <= height
                    },
            decreases n - a,
        {
            assert(slots[a as int] is Some);
            if let Some(anchor) = slots[a] {
                anchors.push(anchor);
            }
            a = a + 1;
        }
        let ghost pre = anchors@;
        proof {
            assert(pre.map_values(|a: SpriteAnchor| anchor_data(a)) =~= all);
            lemma_extent(pre, width as int, height as int);
            assert(extent_x(pre) <= width) by {
                assert forall|i: int| 0 <= i < pre.len() implies (#[trigger] pre[i]).position.0
                    + pre[i].dimensions.0 <= width by {}
            }
            assert(extent_y(pre) <= height) by {
                assert forall|i: int| 0 <= i < pre.len() implies (#[trigger] pre[i]).position.1
                    + pre[i].dimensions.1 <= height by {}
            }
            if width != 0 {
                let i = choose|i: int|
                    0 <= i < slots@.len() && (#[trigger] slots@[i]) is Some && slots@[i]->Some_0.position.0
                        + slots@[i]->Some_0.dimensions.0 == right_edge;
                assert(pre[i] == slots[i]->Some_0);
            }
            if height != 0 {
                let i = choose|i: int|
                    0 <= i < slots@.len() && (#[trigger] slots@[i]) is Some && slots@[i]->Some_0.position.1
                        + slots@[i]->Some_0.dimensions.1 == bottom_edge;
                assert(pre[i] == slots[i]->Some_0);
            }
            if pre.len() > 0 {
                assert(pre[0].position.0 + pre[0].dimensions.0 <= extent_x(pre));
                assert(pre[0].position.1 + pre[0].dimensions.1 <= extent_y(pre));
            }
            assert(width == extent_x(pre) && height == extent_y(pre));
            assert forall|i: int| 0 <= i < pre.len() implies flush(pre, #[trigger] pre[i]) by {}
        }
        sort_anchors_by_id(&mut anchors);
        let ghost out = anchors@;
        proof {
            assert forall|i: int| 0 <= i < out.len() implies pre.contains(#[trigger] out[i]) by {
                assert(out.to_multiset().count(out[i]) > 0);
                assert(pre.to_multiset().count(out[i]) > 0);
            }
            assert forall|i: int| 0 <= i < pre.len() implies out.contains(#[trigger] pre[i]) by {
                assert(pre.to_multiset().count(pre[i]) > 0);
                assert(out.to_multiset().count(pre[i]) > 0);
            }
            lemma_extent_same_members(pre, out);
            lemma_flush_same_members(pre, out);
        }
        let result = PackerResult { dimensions: (width, height), anchors };
        let mut results: Vec<PackerResult> = Vec::new();
        results.push(result);
        proof {
            lemma_placed_push(Seq::empty(), result);
            assert(Seq::<PackerResult>::empty().push(result) =~= results@);
            assert(placed(Seq::<PackerResult>::empty()) =~= Seq::<SpriteData>::empty());
            assert(placed(results@) =~= sheet_data(result));
            assert(placed(results@).to_multiset() == all.to_multiset());
            assert(rest_seq.len() == 0);
            assert(total_width(rest_seq) == 0);
            assert forall|i: int| 0 <= i < out.len() implies (#[trigger] out[i]).position.0
                + out[i].dimensions.0 <= width && out[i].position.1 + out[i].dimensions.1
                <= height by {
                let k = choose|k: int| 0 <= k < pre.len() && pre[k] == out[i];
            }
            assert(anchors_inside(results[0]));
            assert forall|f: int| #[trigger] is_first_placed(sprites@, f) implies at_origin(
                results[0].anchors@,
                sprites@[f],
            ) by {
                assert(pre[f] == slots[f]->Some_0);
                assert(out.contains(pre[f]));
                let m = choose|m: int| 0 <= m < out.len() && out[m] == pre[f];
                assert(anchor_data(out[m]) == all[f]);
            }
            if n == 0 {
                lemma_totals_nonneg(all);
                assert(total_width(all) == 0);
            }
        }
        results
    }
}

} // verus!
