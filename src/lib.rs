//! Packs sprites into sprite sheets. Sprites with identical pixels are packed
//! once; a packing strategy (a greedy corner heuristic or maximal rectangles
//! with best-short-side-fit) places them; the sheet bytes are composed from
//! the sprites' pixels; optional trimming crops fully transparent borders.
use vstd::prelude::*;

mod dedup;
mod format;
mod pack;
mod sprite;
mod trim;

pub use dedup::{alias_groups, alias_list_ids, AliasList};
pub use format::{
    AmethystFormat, AmethystNamedFormat, Format, NamedSheetLayout, NamedSpriteRect, SheetLayout,
    SpriteRect, Wrapper,
};
pub use pack::maxrects::{
    remove_redundant_rects, MaxRectsBin, MaxrectsOptions, MaxrectsPacker, Rect, RectScore,
    ScoreResult,
};
pub use pack::simple::SimplePacker;
pub use pack::{Packer, PackerResult};
pub use sprite::{create_pixel_buffer, write_sprite, InputSprite, Sprite, SpriteAnchor, SpriteData};
pub use trim::{
    any_opaque, is_crop, is_trim_box, lemma_trim_idempotent, lemma_trim_opaque,
    lemma_trim_transparent, opaque, trimmed_from,
};

use dedup::{
    alias_ids, alias_list_get, alias_list_len, contents_of, group_ids, groups_wf, is_first_copy,
    listed,
};
use pack::{
    anchor_data, no_overlap, overlap, extent_x, extent_y, extents_fit, lemma_extent, lemma_extent_nonneg, packs, placed,
    total_height, total_width,
};
use sprite::{blit, buffer_len};
use trim::sprite_fits;

verus! {

broadcast use vstd::seq_lib::group_to_multiset_ensures;

/// One finished sheet: its pixel bytes, the bytes per pixel, its size, and
/// where every sprite on it sits.
#[derive(Debug)]
pub struct SpriteSheet {
    pub bytes: Vec<u8>,
    pub stride: usize,
    pub dimensions: (u32, u32),
    pub anchors: Vec<SpriteAnchor>,
}

impl Clone for SpriteSheet {
    fn clone(&self) -> (r: Self)
        ensures
            r.bytes@ == self.bytes@,
            r.stride == self.stride,
            r.dimensions == self.dimensions,
            r.anchors@ == self.anchors@,
    {
        let mut bytes: Vec<u8> = Vec::new();
        let mut k: usize = 0;
        while k < self.bytes.len()
            invariant
                k <= self.bytes.len(),
                bytes@ == self.bytes@.subrange(0, k as int),
            decreases self.bytes.len() - k,
        {
            bytes.push(self.bytes[k]);
            assert(self.bytes@.subrange(0, k + 1) =~= self.bytes@.subrange(0, k as int).push(
                self.bytes@[k as int],
            ));
            k = k + 1;
        }
        let mut anchors: Vec<SpriteAnchor> = Vec::new();
        let mut a: usize = 0;
        while a < self.anchors.len()
            invariant
                a <= self.anchors.len(),
                anchors@ == self.anchors@.subrange(0, a as int),
            decreases self.anchors.len() - a,
        {
            anchors.push(self.anchors[a]);
            assert(self.anchors@.subrange(0, a + 1) =~= self.anchors@.subrange(0, a as int).push(
                self.anchors@[a as int],
            ));
            a = a + 1;
        }
        assert(bytes@ =~= self.bytes@);
        assert(anchors@ =~= self.anchors@);
        SpriteSheet { bytes, stride: self.stride, dimensions: self.dimensions, anchors }
    }
}

/// The id and size of each input sprite; the id is its position.
pub open spec fn input_data(input: Seq<InputSprite>) -> Seq<SpriteData> {
    Seq::new(input.len(), |i: int| SpriteData { id: i as usize, dimensions: input[i].dimensions })
}

/// The anchors of every packed sheet, sheet after sheet.
pub open spec fn flat_anchors(results: Seq<PackerResult>) -> Seq<SpriteAnchor>
    decreases results.len(),
{
    if results.len() == 0 {
        Seq::empty()
    } else {
        flat_anchors(results.drop_last()) + results.last().anchors@
    }
}

/// The ids of `anchors`, in order.
pub open spec fn anchor_ids(anchors: Seq<SpriteAnchor>) -> Seq<usize> {
    anchors.map_values(|a: SpriteAnchor| a.id)
}

/// The ids of the anchors of every sheet, sheet after sheet.
pub open spec fn sheet_ids(sheets: Seq<SpriteSheet>) -> Seq<usize>
    decreases sheets.len(),
{
    if sheets.len() == 0 {
        Seq::empty()
    } else {
        sheet_ids(sheets.drop_last()) + anchor_ids(sheets.last().anchors@)
    }
}

/// Every input buffer holds exactly its pixels at `stride` bytes each.
pub open spec fn buffers_fit(input: Seq<InputSprite>, stride: int) -> bool {
    forall|i: int|
        0 <= i < input.len() ==> (#[trigger] input[i]).bytes.len() == buffer_len(
            input[i].dimensions,
            stride,
        )
}

proof fn lemma_flat_anchors_push(results: Seq<PackerResult>, r: PackerResult)
    ensures
        flat_anchors(results.push(r)) == flat_anchors(results) + r.anchors@,
{
    assert(results.push(r).drop_last() =~= results);
}

/// The packed anchors, seen as sprite data, are `placed`.
proof fn lemma_flat_placed(results: Seq<PackerResult>)
    ensures
        placed(results) == flat_anchors(results).map_values(|a: SpriteAnchor| anchor_data(a)),
    decreases results.len(),
{
    if results.len() > 0 {
        lemma_flat_placed(results.drop_last());
        assert(placed(results) =~= flat_anchors(results).map_values(
            |a: SpriteAnchor| anchor_data(a),
        ));
    }
}

/// Anchor `i` of sheet `k` stands at `flat_anchors(results.take(k)).len() + i`
/// of the flattened anchors.
proof fn lemma_flat_index(results: Seq<PackerResult>, k: int, i: int)
    requires
        0 <= k < results.len(),
        0 <= i < results[k].anchors.len(),
    ensures
        flat_anchors(results.take(k)).len() + results[k].anchors.len() <= flat_anchors(
            results,
        ).len(),
        flat_anchors(results)[flat_anchors(results.take(k)).len() + i] == results[k].anchors[i],
        flat_anchors(results.take(k + 1)) == flat_anchors(results.take(k)) + results[k].anchors@,
    decreases results.len(),
{
    assert(results.take(k + 1) =~= results.take(k).push(results[k]));
    lemma_flat_anchors_push(results.take(k), results[k]);
    if k < results.len() - 1 {
        lemma_flat_index(results.drop_last(), k, i);
        assert(results.drop_last().take(k) =~= results.take(k));
        assert(results.drop_last().take(k + 1) =~= results.take(k + 1));
        lemma_flat_anchors_push(results.drop_last(), results.last());
        assert(results.drop_last().push(results.last()) =~= results);
    } else {
        assert(results.take(k + 1) =~= results);
        assert(results.drop_last() =~= results.take(k));
    }
}

/// The representatives handed to the packer: strictly increasing ids, each
/// the first sprite of its content, with that sprite's size.
pub open spec fn representatives_wf(input: Seq<InputSprite>, data: Seq<SpriteData>) -> bool {
    &&& forall|m: int|
        0 <= m < data.len() ==> {
            &&& (#[trigger] data[m]).id < input.len()
            &&& is_first_copy(contents_of(input), data[m].id as int)
            &&& data[m].dimensions == input[data[m].id as int].dimensions
        }
    &&& forall|a: int, b: int| 0 <= a < b < data.len() ==> (#[trigger] data[a]).id < (#[trigger] data[b]).id
}

/// Whatever a packer placed for well-formed representatives: each packed
/// anchor stands for one representative, and no representative is placed
/// twice.
proof fn lemma_rep_anchors(input: Seq<InputSprite>, data: Seq<SpriteData>, results: Seq<PackerResult>)
    requires
        representatives_wf(input, data),
        placed(results).to_multiset() == data.to_multiset(),
    ensures
        forall|p: int|
            0 <= p < flat_anchors(results).len() ==> {
                &&& data.contains(anchor_data(#[trigger] flat_anchors(results)[p]))
                &&& flat_anchors(results)[p].id < input.len()
                &&& is_first_copy(contents_of(input), flat_anchors(results)[p].id as int)
                &&& flat_anchors(results)[p].dimensions == input[flat_anchors(
                    results,
                )[p].id as int].dimensions
            },
        forall|p: int, q: int|
            0 <= p < flat_anchors(results).len() && 0 <= q < flat_anchors(results).len() && p != q
                ==> (#[trigger] flat_anchors(results)[p]).id != (#[trigger] flat_anchors(
                results,
            )[q]).id,
{
    let ra = flat_anchors(results);
    lemma_flat_placed(results);
    let pl = placed(results);
    assert(data.no_duplicates()) by {
        assert forall|a: int, b: int| 0 <= a < data.len() && 0 <= b < data.len() && a != b implies data[a]
            != data[b] by {
            if a < b {
                assert(data[a].id < data[b].id);
            } else {
                assert(data[b].id < data[a].id);
            }
        }
    }
    data.lemma_multiset_has_no_duplicates();
    pl.lemma_multiset_has_no_duplicates_conv();
    assert forall|p: int| 0 <= p < ra.len() implies data.contains(anchor_data(#[trigger] ra[p])) by {
        assert(pl[p] == anchor_data(ra[p]));
        assert(pl.contains(pl[p]));
        assert(pl.to_multiset().count(pl[p]) > 0);
    }
    assert forall|p: int| 0 <= p < ra.len() implies {
        &&& (#[trigger] ra[p]).id < input.len()
        &&& is_first_copy(contents_of(input), ra[p].id as int)
        &&& ra[p].dimensions == input[ra[p].id as int].dimensions
    } by {
        assert(data.contains(anchor_data(ra[p])));
        let m = choose|m: int| 0 <= m < data.len() && data[m] == anchor_data(ra[p]);
        assert(data[m].id == ra[p].id);
    }
    assert forall|p: int, q: int| 0 <= p < ra.len() && 0 <= q < ra.len() && p != q implies (
    #[trigger] ra[p]).id != (#[trigger] ra[q]).id by {
        assert(data.contains(anchor_data(ra[p])));
        assert(data.contains(anchor_data(ra[q])));
        let m1 = choose|m: int| 0 <= m < data.len() && data[m] == anchor_data(ra[p]);
        let m2 = choose|m: int| 0 <= m < data.len() && data[m] == anchor_data(ra[q]);
        if ra[p].id == ra[q].id {
            if m1 < m2 {
                assert(data[m1].id < data[m2].id);
            } else if m2 < m1 {
                assert(data[m2].id < data[m1].id);
            }
            assert(pl[p] == pl[q]);
        }
    }
}

/// One anchor per further id of `ids` (all but the first), each at the place
/// and of the size of `a`.
pub open spec fn aliases_at(ids: Seq<usize>, a: SpriteAnchor) -> Seq<SpriteAnchor> {
    if ids.len() == 0 {
        Seq::empty()
    } else {
        ids.subrange(1, ids.len() as int).map_values(
            |x: usize| SpriteAnchor { id: x, position: a.position, dimensions: a.dimensions },
        )
    }
}

/// A zeroed sheet of `dimensions` with the sprites of `anchors` drawn onto
/// it in order, each from the bytes of the input its id names.
pub open spec fn composed(
    dimensions: (u32, u32),
    stride: int,
    input: Seq<InputSprite>,
    anchors: Seq<SpriteAnchor>,
) -> Seq<u8>
    decreases anchors.len(),
{
    if anchors.len() == 0 {
        Seq::new(buffer_len(dimensions, stride) as nat, |k: int| 0u8)
    } else {
        let a = anchors.last();
        blit(
            composed(dimensions, stride, input, anchors.drop_last()),
            dimensions.0 as int,
            stride,
            input[a.id as int].bytes@,
            input[a.id as int].dimensions,
            a,
        )
    }
}

/// The anchors of `anchors` whose sprite is the first with its content, in
/// order.
pub open spec fn firsts(input: Seq<InputSprite>, anchors: Seq<SpriteAnchor>) -> Seq<SpriteAnchor>
    decreases anchors.len(),
{
    if anchors.len() == 0 {
        Seq::empty()
    } else if is_first_copy(contents_of(input), anchors.last().id as int) {
        firsts(input, anchors.drop_last()).push(anchors.last())
    } else {
        firsts(input, anchors.drop_last())
    }
}

/// The sprite data of the first `i` inputs that are the first with their
/// bytes, in input order: what the packer is given.
pub open spec fn first_copies(input: Seq<InputSprite>, i: nat) -> Seq<SpriteData>
    decreases i,
{
    if i == 0 {
        Seq::empty()
    } else if is_first_copy(contents_of(input), i - 1) {
        first_copies(input, (i - 1) as nat).push(
            SpriteData { id: (i - 1) as usize, dimensions: input[i - 1].dimensions },
        )
    } else {
        first_copies(input, (i - 1) as nat)
    }
}

/// The sheets `r` are the packer's sheets `res`, each with the same size,
/// its anchors first and then only anchors of sprites that repeat an earlier
/// sprite's bytes.
pub open spec fn expands(input: Seq<InputSprite>, res: Seq<PackerResult>, r: Seq<SpriteSheet>) -> bool {
    &&& r.len() == res.len()
    &&& forall|k: int|
        0 <= k < r.len() ==> {
            &&& (#[trigger] r[k]).dimensions == res[k].dimensions
            &&& res[k].anchors.len() <= r[k].anchors.len()
            &&& r[k].anchors@.subrange(0, res[k].anchors.len() as int) == res[k].anchors@
            &&& forall|i: int|
                res[k].anchors.len() <= i < r[k].anchors.len() ==> !is_first_copy(
                    contents_of(input),
                    (#[trigger] r[k].anchors[i]).id as int,
                )
        }
}

/// `b` has the size of the first sprite with the same bytes as its own
/// sprite: its own size when it is that first sprite.
pub open spec fn sized_as_first_copy(input: Seq<InputSprite>, b: SpriteAnchor) -> bool {
    exists|r: int|
        0 <= r < input.len() && is_first_copy(contents_of(input), r) && (#[trigger] input[r]).bytes@
            == input[b.id as int].bytes@ && b.dimensions == input[r].dimensions
}

/// Some anchor of `reps` covers the same rectangle as `b`.
pub open spec fn repeats_one_of(reps: Seq<SpriteAnchor>, b: SpriteAnchor) -> bool {
    exists|q: int|
        0 <= q < reps.len() && (#[trigger] reps[q]).position == b.position && reps[q].dimensions
            == b.dimensions
}

/// Anchors that repeat the rectangles of earlier ones leave the extents as
/// they were.
proof fn lemma_extent_repeats(reps: Seq<SpriteAnchor>, out: Seq<SpriteAnchor>)
    requires
        reps.len() <= out.len(),
        out.subrange(0, reps.len() as int) == reps,
        forall|m: int| reps.len() <= m < out.len() ==> repeats_one_of(reps, #[trigger] out[m]),
    ensures
        extent_x(out) == extent_x(reps),
        extent_y(out) == extent_y(reps),
{
    lemma_extent_nonneg(out);
    lemma_extent_nonneg(reps);
    lemma_extent(out, 0, 0);
    lemma_extent(reps, 0, 0);
    assert forall|i: int| 0 <= i < reps.len() implies (#[trigger] reps[i]).position.0
        + reps[i].dimensions.0 <= extent_x(out) && reps[i].position.1 + reps[i].dimensions.1
        <= extent_y(out) by {
        assert(out.subrange(0, reps.len() as int)[i] == out[i]);
        assert(out[i] == reps[i]);
    }
    lemma_extent(reps, extent_x(out), extent_y(out));
    assert forall|m: int| 0 <= m < out.len() implies (#[trigger] out[m]).position.0
        + out[m].dimensions.0 <= extent_x(reps) && out[m].position.1 + out[m].dimensions.1
        <= extent_y(reps) by {
        if m < reps.len() {
            assert(out.subrange(0, reps.len() as int)[m] == out[m]);
            assert(reps[m] == out[m]);
        } else {
            let q = choose|q: int|
                0 <= q < reps.len() && (#[trigger] reps[q]).position == out[m].position
                    && reps[q].dimensions == out[m].dimensions;
            assert(reps[q].position.0 + reps[q].dimensions.0 <= extent_x(reps));
        }
    }
    lemma_extent(out, extent_x(reps), extent_y(reps));
}

proof fn lemma_firsts_split(input: Seq<InputSprite>, reps: Seq<SpriteAnchor>, rest: Seq<SpriteAnchor>)
    requires
        forall|i: int| 0 <= i < reps.len() ==> is_first_copy(contents_of(input), (#[trigger] reps[i]).id as int),
        forall|i: int| 0 <= i < rest.len() ==> !is_first_copy(contents_of(input), (#[trigger] rest[i]).id as int),
    ensures
        firsts(input, reps + rest) == reps,
    decreases reps.len() + rest.len(),
{
    if rest.len() > 0 {
        assert((reps + rest).drop_last() =~= reps + rest.drop_last());
        assert((reps + rest).last() == rest.last());
        assert(rest.last() == rest[rest.len() - 1]);
        lemma_firsts_split(input, reps, rest.drop_last());
    } else if reps.len() > 0 {
        assert(reps + rest =~= reps);
        assert(reps.drop_last() + rest =~= reps.drop_last());
        assert(reps.last() == reps[reps.len() - 1]);
        lemma_firsts_split(input, reps.drop_last(), rest);
        assert(reps.drop_last().push(reps.last()) =~= reps);
    } else {
        assert(reps + rest =~= Seq::<SpriteAnchor>::empty());
    }
}

/// Some packed anchor in `lo..hi` heads a group that holds `y`.
pub open spec fn from_reps(g: Seq<Seq<usize>>, ra: Seq<SpriteAnchor>, lo: int, hi: int, y: usize) -> bool {
    exists|p: int| lo <= p < hi && (#[trigger] g[ra[p].id as int]).contains(y)
}

/// Some packed anchor in `lo..hi` heads a group holding the id of `b` and has
/// the place and size of `b`.
pub open spec fn rep_for(g: Seq<Seq<usize>>, ra: Seq<SpriteAnchor>, lo: int, hi: int, b: SpriteAnchor) -> bool {
    exists|p: int|
        lo <= p < hi && (#[trigger] g[ra[p].id as int]).contains(b.id) && ra[p].position == b.position
            && ra[p].dimensions == b.dimensions
}

/// Appends, for every id of `group` after the first, an anchor at the place
/// of `anchor`.
fn push_aliases(anchors: &mut Vec<SpriteAnchor>, group: &AliasList, anchor: SpriteAnchor)
    ensures
        final(anchors)@ == old(anchors)@ + aliases_at(alias_ids(*group), anchor),
{
    let count = alias_list_len(group);
    let ghost start = anchors@;
    let ghost ids = alias_ids(*group);
    if count == 0 {
        assert(anchors@ =~= start + aliases_at(ids, anchor));
        return;
    }
    let mut t: usize = 1;
    while t < count
        invariant
            1 <= t <= count,
            count == ids.len(),
            ids == alias_ids(*group),
            anchors@ == start + aliases_at(ids, anchor).subrange(0, t - 1),
        decreases count - t,
    {
        let alias = alias_list_get(group, t);
        anchors.push(SpriteAnchor { id: alias, position: anchor.position, dimensions: anchor.dimensions });
        assert(aliases_at(ids, anchor).subrange(0, t as int) =~= aliases_at(ids, anchor).subrange(
            0,
            t - 1,
        ).push(SpriteAnchor { id: alias, position: anchor.position, dimensions: anchor.dimensions }));
        t = t + 1;
    }
    assert(aliases_at(ids, anchor).subrange(0, count - 1) =~= aliases_at(ids, anchor));
}

proof fn lemma_buffer_bound(dims: (u32, u32), tw: int, th: int, stride: int)
    requires
        dims.0 <= tw,
        dims.1 <= th,
        0 <= stride,
        tw * th * stride <= usize::MAX,
    ensures
        buffer_len(dims, stride) <= usize::MAX,
{
    assert(dims.0 * dims.1 * stride <= tw * th * stride) by (nonlinear_arith)
        requires
            0 <= dims.0 <= tw,
            0 <= dims.1 <= th,
            0 <= stride,
    ;
}

proof fn lemma_flat_concat(a: Seq<PackerResult>, b: Seq<PackerResult>)
    ensures
        flat_anchors(a + b) == flat_anchors(a) + flat_anchors(b),
    decreases b.len(),
{
    if b.len() == 0 {
        assert(a + b =~= a);
        assert(flat_anchors(a) + flat_anchors(b) =~= flat_anchors(a));
    } else {
        lemma_flat_concat(a, b.drop_last());
        assert((a + b).drop_last() =~= a + b.drop_last());
        assert((a + b).last() == b.last());
        assert(flat_anchors(a) + flat_anchors(b.drop_last()) + b.last().anchors@ =~= flat_anchors(a)
            + flat_anchors(b));
    }
}

/// The anchors of the first `j` sheets begin the flattened anchors.
proof fn lemma_flat_prefix(results: Seq<PackerResult>, j: int)
    requires
        0 <= j <= results.len(),
    ensures
        flat_anchors(results.take(j)).len() <= flat_anchors(results).len(),
        forall|p: int|
            0 <= p < flat_anchors(results.take(j)).len() ==> #[trigger] flat_anchors(results.take(j))[p]
                == flat_anchors(results)[p],
{
    assert(results.take(j) + results.skip(j) =~= results);
    lemma_flat_concat(results.take(j), results.skip(j));
}

/// The sheets before `a` end where sheet `a` begins, and no later.
proof fn lemma_flat_monotone(results: Seq<PackerResult>, a: int, b: int)
    requires
        0 <= a <= b <= results.len(),
    ensures
        flat_anchors(results.take(a)).len() <= flat_anchors(results.take(b)).len(),
    decreases b - a,
{
    if a < b {
        lemma_flat_monotone(results, a, b - 1);
        assert(results.take(b) =~= results.take(b - 1).push(results[b - 1]));
        lemma_flat_anchors_push(results.take(b - 1), results[b - 1]);
    }
}

/// A first copy held by some group is the head of that group.
proof fn lemma_first_in_group(input: Seq<InputSprite>, g: Seq<Seq<usize>>, r: int, x: usize)
    requires
        groups_wf(contents_of(input), g),
        0 <= r < g.len(),
        g[r].contains(x),
        is_first_copy(contents_of(input), x as int),
    ensures
        x == r,
{
    let contents = contents_of(input);
    let t = choose|t: int| 0 <= t < g[r].len() && g[r][t] == x;
    assert(g[r][t] < contents.len());
    assert(contents[x as int] == contents[r]);
    assert(g[r].len() > 0);
    assert(is_first_copy(contents, r));
    if (x as int) < r {
    } else if r < (x as int) {
    }
}

/// Two groups that share an id are the same group.
proof fn lemma_groups_disjoint(input: Seq<InputSprite>, g: Seq<Seq<usize>>, r1: int, r2: int, x: usize)
    requires
        groups_wf(contents_of(input), g),
        0 <= r1 < g.len(),
        0 <= r2 < g.len(),
        g[r1].contains(x),
        g[r2].contains(x),
    ensures
        r1 == r2,
{
    let contents = contents_of(input);
    let t1 = choose|t: int| 0 <= t < g[r1].len() && g[r1][t] == x;
    let t2 = choose|t: int| 0 <= t < g[r2].len() && g[r2][t] == x;
    assert(g[r1][t1] < contents.len());
    assert(g[r2][t2] < contents.len());
    assert(contents[r1] == contents[r2]);
    assert(is_first_copy(contents, r1));
    assert(is_first_copy(contents, r2));
    if r1 < r2 {
    } else if r2 < r1 {
    }
}

/// Past the head, the ids of a group are not first copies.
proof fn lemma_alias_not_first(input: Seq<InputSprite>, g: Seq<Seq<usize>>, r: int, t: int)
    requires
        groups_wf(contents_of(input), g),
        0 <= r < g.len(),
        1 <= t < g[r].len(),
    ensures
        !is_first_copy(contents_of(input), g[r][t] as int),
{
    let contents = contents_of(input);
    assert(g[r][0] == r);
    assert(g[r][t] != g[r][0]);
    assert(g[r][t] < contents.len());
    assert(contents[g[r][t] as int] == contents[r]);
    assert(is_first_copy(contents, r));
    if (g[r][t] as int) < r {
        assert(contents[g[r][t] as int] != contents[r]);
    } else {
        assert(contents[r] == contents[g[r][t] as int]);
    }
}

/// An id that the groups of the anchors before `base` hold is not the id of
/// a packed anchor at or after `base`.
proof fn lemma_not_listed_before(
    input: Seq<InputSprite>,
    g: Seq<Seq<usize>>,
    ra: Seq<SpriteAnchor>,
    base: int,
    prev: Seq<usize>,
    y: int,
    q: int,
)
    requires
        groups_wf(contents_of(input), g),
        0 <= y < prev.len(),
        from_reps(g, ra, 0, base, prev[y]),
        base <= q < ra.len(),
        forall|p: int|
            0 <= p < ra.len() ==> {
                &&& (#[trigger] ra[p]).id < input.len()
                &&& is_first_copy(contents_of(input), ra[p].id as int)
            },
        forall|p: int, s: int|
            0 <= p < ra.len() && 0 <= s < ra.len() && p != s ==> (#[trigger] ra[p]).id != (
            #[trigger] ra[s]).id,
    ensures
        prev[y] != ra[q].id,
{
    let p = choose|p: int| 0 <= p < base && (#[trigger] g[ra[p].id as int]).contains(prev[y]);
    if prev[y] == ra[q].id {
        assert(ra[p].id < input.len());
        lemma_first_in_group(input, g, ra[p].id as int, prev[y]);
    }
}

/// One step of expanding a sheet: after the aliases of representative `i`
/// are appended, the ids out so far are still distinct, every appended anchor
/// sits where its representative does, and the whole group of `i` is out.
proof fn lemma_after_aliases(
    input: Seq<InputSprite>,
    g: Seq<Seq<usize>>,
    ra: Seq<SpriteAnchor>,
    base: int,
    i: int,
    reps: Seq<SpriteAnchor>,
    prev: Seq<usize>,
    before: Seq<SpriteAnchor>,
    after: Seq<SpriteAnchor>,
)
    requires
        groups_wf(contents_of(input), g),
        g.len() == input.len(),
        forall|p: int|
            0 <= p < ra.len() ==> {
                &&& (#[trigger] ra[p]).id < input.len()
                &&& is_first_copy(contents_of(input), ra[p].id as int)
            },
        forall|p: int, q: int|
            0 <= p < ra.len() && 0 <= q < ra.len() && p != q ==> (#[trigger] ra[p]).id != (
            #[trigger] ra[q]).id,
        0 <= base,
        base + reps.len() <= ra.len(),
        forall|m: int| 0 <= m < reps.len() ==> #[trigger] ra[base + m] == reps[m],
        0 <= i < reps.len(),
        forall|y: int| 0 <= y < prev.len() ==> #[trigger] from_reps(g, ra, 0, base, prev[y]),
        before.len() >= reps.len(),
        before.subrange(0, reps.len() as int) == reps,
        (prev + anchor_ids(before)).no_duplicates(),
        forall|m: int|
            reps.len() <= m < before.len() ==> rep_for(g, ra, base, base + i, #[trigger] before[m])
                && !is_first_copy(contents_of(input), before[m].id as int),
        forall|p: int, t: int|
            base <= p < base + i && 0 <= t < (#[trigger] g[ra[p].id as int]).len()
                ==> anchor_ids(before).contains(#[trigger] g[ra[p].id as int][t]),
        after == before + aliases_at(g[reps[i].id as int], reps[i]),
    ensures
        after.len() >= reps.len(),
        after.subrange(0, reps.len() as int) == reps,
        (prev + anchor_ids(after)).no_duplicates(),
        forall|m: int|
            reps.len() <= m < after.len() ==> rep_for(g, ra, base, base + i + 1, #[trigger] after[m])
                && !is_first_copy(contents_of(input), after[m].id as int),
        forall|p: int, t: int|
            base <= p < base + i + 1 && 0 <= t < (#[trigger] g[ra[p].id as int]).len()
                ==> anchor_ids(after).contains(#[trigger] g[ra[p].id as int][t]),
{
    let contents = contents_of(input);
    let q = base + i;
    let rep = reps[i];
    let r = rep.id as int;
    assert(ra[q] == rep);
    let grp = g[r];
    assert(grp.len() > 0);
    assert(grp[0] == r);
    let extra = aliases_at(grp, rep);
    assert(extra.len() == grp.len() - 1);
    assert forall|m: int| 0 <= m < extra.len() implies #[trigger] extra[m] == (SpriteAnchor {
        id: grp[m + 1],
        position: rep.position,
        dimensions: rep.dimensions,
    }) by {}
    assert(after.subrange(0, reps.len() as int) =~= before.subrange(0, reps.len() as int));
    let ob = anchor_ids(before);
    let oa = anchor_ids(after);
    assert(oa =~= ob + anchor_ids(extra));
    // none of the new ids is out yet
    assert forall|m: int| 0 <= m < extra.len() implies !(prev + ob).contains(
        #[trigger] extra[m].id,
    ) by {
        let x = grp[m + 1];
        lemma_alias_not_first(input, g, r, m + 1);
        assert(grp.contains(x));
        if (prev + ob).contains(x) {
            let c = choose|c: int| 0 <= c < (prev + ob).len() && (prev + ob)[c] == x;
            if c < prev.len() {
                assert(from_reps(g, ra, 0, base, prev[c]));
                let p = choose|p: int| 0 <= p < base && (#[trigger] g[ra[p].id as int]).contains(
                    prev[c],
                );
                lemma_groups_disjoint(input, g, ra[p].id as int, r, x);
            } else {
                let d = c - prev.len();
                if d < reps.len() {
                    assert(before[d] == reps[d]);
                    assert(ra[base + d] == reps[d]);
                } else {
                    assert(rep_for(g, ra, base, base + i, before[d]));
                    let p = choose|p: int|
                        base <= p < base + i && (#[trigger] g[ra[p].id as int]).contains(before[d].id)
                            && ra[p].position == before[d].position && ra[p].dimensions
                            == before[d].dimensions;
                    lemma_groups_disjoint(input, g, ra[p].id as int, r, x);
                }
            }
        }
    }
    assert forall|a: int, b: int|
        0 <= a < (prev + oa).len() && 0 <= b < (prev + oa).len() && a != b implies (prev
        + oa)[a] != (prev + oa)[b] by {
        let split = (prev + ob).len();
        assert(prev + oa =~= (prev + ob) + anchor_ids(extra));
        if a < split && b < split {
            assert((prev + oa)[a] == (prev + ob)[a]);
            assert((prev + oa)[b] == (prev + ob)[b]);
        } else if a >= split && b >= split {
            assert(grp[a - split + 1] != grp[b - split + 1]);
        } else if a < split {
            assert((prev + oa)[a] == (prev + ob)[a]);
            assert((prev + ob).contains((prev + ob)[a]));
            assert(extra[b - split].id == (prev + oa)[b]);
        } else {
            assert((prev + oa)[b] == (prev + ob)[b]);
            assert((prev + ob).contains((prev + ob)[b]));
            assert(extra[a - split].id == (prev + oa)[a]);
        }
    }
    assert forall|m: int| reps.len() <= m < after.len() implies rep_for(
        g,
        ra,
        base,
        base + i + 1,
        #[trigger] after[m],
    ) && !is_first_copy(contents, after[m].id as int) by {
        if m < before.len() {
            assert(after[m] == before[m]);
            assert(rep_for(g, ra, base, base + i, before[m]));
            let p = choose|p: int|
                base <= p < base + i && (#[trigger] g[ra[p].id as int]).contains(before[m].id)
                    && ra[p].position == before[m].position && ra[p].dimensions == before[m].dimensions;
            assert(g[ra[p].id as int].contains(after[m].id));
        } else {
            let e = m - before.len();
            assert(after[m] == extra[e]);
            lemma_alias_not_first(input, g, r, e + 1);
            assert(grp[e + 1] == extra[e].id);
            assert(grp.contains(extra[e].id));
            assert(ra[q].id == r);
            assert(g[ra[q].id as int].contains(after[m].id));
        }
    }
    assert forall|p: int, t: int|
        base <= p < base + i + 1 && 0 <= t < (#[trigger] g[ra[p].id as int]).len() implies oa.contains(
        #[trigger] g[ra[p].id as int][t],
    ) by {
        if p < q {
            let c = choose|c: int| 0 <= c < ob.len() && ob[c] == g[ra[p].id as int][t];
            assert(oa[c] == ob[c]);
        } else {
            if t == 0 {
                assert(before[i] == reps[i]);
                assert(oa[i] == r);
            } else {
                assert(oa[before.len() + t - 1] == extra[t - 1].id);
            }
        }
    }
}

/// Hands the sheet's size and anchors to the format `F`.
pub fn encode<F: Format>(sprite_sheet: &SpriteSheet, options: F::Options) -> (r: F::Data)
    requires
        F::accepts(sprite_sheet.anchors@, options),
    ensures
        F::encodes(sprite_sheet.dimensions, sprite_sheet.anchors@, options, r),
{
    F::encode(sprite_sheet.dimensions, sprite_sheet.anchors.as_slice(), options)
}

/// Trims every sprite to the smallest rectangle holding its pixels whose
/// alpha byte is not zero.
pub fn trim(input: &[InputSprite], stride: usize, alpha_channel_index: usize) -> (r: Vec<InputSprite>)
    requires
        alpha_channel_index < stride,
        forall|i: int| 0 <= i < input.len() ==> sprite_fits(#[trigger] input[i], stride as int),
    ensures
        r.len() == input.len(),
        forall|i: int|
            0 <= i < input.len() ==> trimmed_from(
                #[trigger] r[i],
                input[i],
                stride as int,
                alpha_channel_index as int,
            ),
{
    let mut out: Vec<InputSprite> = Vec::new();
    let mut i: usize = 0;
    while i < input.len()
        invariant
            i <= input.len(),
            alpha_channel_index < stride,
            forall|m: int| 0 <= m < input.len() ==> sprite_fits(#[trigger] input[m], stride as int),
            out.len() == i,
            forall|m: int|
                0 <= m < i ==> trimmed_from(
                    #[trigger] out[m],
                    input[m],
                    stride as int,
                    alpha_channel_index as int,
                ),
        decreases input.len() - i,
    {
        out.push(input[i].trimmed(stride, alpha_channel_index));
        i = i + 1;
    }
    out
}

/// Packs the sprites onto sheets. Sprites with the same bytes are packed once:
/// the first of them stands for all, its pixels are written once, and every
/// other one gets an anchor at the same place. `P` decides the placements.
/// Each buffer must hold exactly its sprite's pixels; the sprites' widths,
/// and their heights, laid end to end must fit a `u32` coordinate, and a
/// sheet that size must fit in memory.
#[verifier::rlimit(80)]
pub fn pack<P: Packer>(input: Vec<InputSprite>, stride: usize, options: P::Options) -> (r: Vec<
    SpriteSheet,
>)
    requires
        buffers_fit(input@, stride as int),
        extents_fit(input_data(input@)),
        total_width(input_data(input@)) * total_height(input_data(input@)) * stride
            <= usize::MAX,
    ensures
        exists|res: Seq<PackerResult>|
            #[trigger] P::outcome(first_copies(input@, input.len() as nat), options, res) && expands(
                input@,
                res,
                r@,
            ),
        sheet_ids(r@).no_duplicates(),
        forall|j: usize| j < input.len() ==> #[trigger] sheet_ids(r@).contains(j),
        forall|k: int, i: int|
            0 <= k < r.len() && 0 <= i < r[k].anchors.len() ==> {
                &&& (#[trigger] r[k].anchors[i]).id < input.len()
                &&& r[k].anchors[i].position.0 + r[k].anchors[i].dimensions.0 <= r[k].dimensions.0
                &&& r[k].anchors[i].position.1 + r[k].anchors[i].dimensions.1 <= r[k].dimensions.1
            },
        forall|k: int, i: int|
            0 <= k < r.len() && 0 <= i < r[k].anchors.len() ==> sized_as_first_copy(
                input@,
                #[trigger] r[k].anchors[i],
            ),
        P::keeps_apart() ==> forall|k: int, i: int, j: int|
            0 <= k < r.len() && 0 <= i < r[k].anchors.len() && 0 <= j < r[k].anchors.len()
                && input[(#[trigger] r[k].anchors[i]).id as int].bytes@ != input[(
            #[trigger] r[k].anchors[j]).id as int].bytes@ ==> !overlap(r[k].anchors[i], r[k].anchors[j]),
        forall|k: int|
            0 <= k < r.len() ==> (#[trigger] r[k]).dimensions.0 == extent_x(r[k].anchors@)
                && r[k].dimensions.1 == extent_y(r[k].anchors@),
        forall|k: int|
            0 <= k < r.len() ==> (#[trigger] r[k]).stride == stride && r[k].bytes.len()
                == buffer_len(r[k].dimensions, stride as int) && r[k].bytes@ == composed(
                r[k].dimensions,
                stride as int,
                input@,
                firsts(input@, r[k].anchors@),
            ),
        forall|k1: int, i1: int, k2: int, i2: int|
            0 <= k1 < r.len() && 0 <= i1 < r[k1].anchors.len() && 0 <= k2 < r.len() && 0 <= i2
                < r[k2].anchors.len() && input[(#[trigger] r[k1].anchors[i1]).id as int].bytes@
                == input[(#[trigger] r[k2].anchors[i2]).id as int].bytes@ ==> {
                &&& k1 == k2
                &&& r[k1].anchors[i1].position == r[k2].anchors[i2].position
                &&& r[k1].anchors[i1].dimensions == r[k2].anchors[i2].dimensions
            },
{
    let n = input.len();
    let ghost contents = contents_of(input@);
    let ghost all = input_data(input@);
    let groups = alias_groups(&input);
    let ghost g = group_ids(groups@);
    let mut sprite_data: Vec<SpriteData> = Vec::new();
    let mut i: usize = 0;
    while i < n
        invariant
            n == input.len(),
            contents == contents_of(input@),
            all == input_data(input@),
            groups_wf(contents, g),
            g == group_ids(groups@),
            i <= n,
            representatives_wf(input@, sprite_data@),
            sprite_data@ == first_copies(input@, i as nat),
            forall|m: int| 0 <= m < sprite_data.len() ==> (#[trigger] sprite_data[m]).id < i,
            forall|r: int|
                0 <= r < i && is_first_copy(contents, r) ==> #[trigger] sprite_data@.contains(
                    SpriteData { id: r as usize, dimensions: input[r].dimensions },
                ),
            total_width(sprite_data@) <= total_width(all.take(i as int)),
            total_height(sprite_data@) <= total_height(all.take(i as int)),
        decreases n - i,
    {
        let d = SpriteData { id: i, dimensions: input[i].dimensions };
        proof {
            assert(all.take(i + 1) =~= all.take(i as int).push(d));
            pack::lemma_totals_push(all.take(i as int), d);
            assert(g[i as int] == alias_ids(groups@[i as int]));
        }
        if alias_list_len(&groups[i]) > 0 {
            let ghost before = sprite_data@;
            sprite_data.push(d);
            proof {
                pack::lemma_totals_push(before, d);
                assert forall|r: int|
                    0 <= r < i + 1 && is_first_copy(contents, r) implies #[trigger] sprite_data@.contains(
                    SpriteData { id: r as usize, dimensions: input[r].dimensions },
                ) by {
                    if r < i {
                        assert(before.contains(
                            SpriteData { id: r as usize, dimensions: input[r].dimensions },
                        ));
                        let m = choose|m: int|
                            0 <= m < before.len() && before[m] == SpriteData {
                                id: r as usize,
                                dimensions: input[r].dimensions,
                            };
                        assert(sprite_data@[m] == before[m]);
                    } else {
                        assert(sprite_data@[before.len() as int] == d);
                    }
                }
            }
        } else {
            proof {
                pack::lemma_totals_nonneg(sprite_data@);
            }
        }
        i = i + 1;
    }
    proof {
        assert(all.take(n as int) =~= all);
        pack::lemma_totals_nonneg(sprite_data@);
    }
    let ghost opts = options;
    let results = P::pack(sprite_data.as_slice(), options);
    proof {
        lemma_rep_anchors(input@, sprite_data@, results@);
    }
    let ghost ra = flat_anchors(results@);
    let mut sheets: Vec<SpriteSheet> = Vec::new();
    let mut k: usize = 0;
    while k < results.len()
        invariant
            n == input.len(),
            contents == contents_of(input@),
            all == input_data(input@),
            buffers_fit(input@, stride as int),
            total_width(all) * total_height(all) * stride <= usize::MAX,
            groups_wf(contents, g),
            g == group_ids(groups@),
            ra == flat_anchors(results@),
            packs(sprite_data@, results@),
            total_width(sprite_data@) <= total_width(all),
            total_height(sprite_data@) <= total_height(all),
            representatives_wf(input@, sprite_data@),
            forall|r: int|
                0 <= r < n && is_first_copy(contents, r) ==> #[trigger] sprite_data@.contains(
                    SpriteData { id: r as usize, dimensions: input[r].dimensions },
                ),
            forall|p: int|
                0 <= p < ra.len() ==> {
                    &&& sprite_data@.contains(anchor_data(#[trigger] ra[p]))
                    &&& ra[p].id < n
                    &&& is_first_copy(contents, ra[p].id as int)
                    &&& ra[p].dimensions == input[ra[p].id as int].dimensions
                },
            forall|p: int, q: int|
                0 <= p < ra.len() && 0 <= q < ra.len() && p != q ==> (#[trigger] ra[p]).id != (
                #[trigger] ra[q]).id,
            k <= results.len(),
            sheets.len() == k,
            // the ids out so far: members of the groups headed by earlier packed anchors
            sheet_ids(sheets@).no_duplicates(),
            forall|y: int|
                0 <= y < sheet_ids(sheets@).len() ==> #[trigger] from_reps(
                    g,
                    ra,
                    0,
                    flat_anchors(results@.take(k as int)).len() as int,
                    sheet_ids(sheets@)[y],
                ),
            forall|p: int, t: int|
                0 <= p < flat_anchors(results@.take(k as int)).len() && 0 <= t < (
                #[trigger] g[ra[p].id as int]).len() ==> sheet_ids(sheets@).contains(
                    #[trigger] g[ra[p].id as int][t],
                ),
            forall|a: int, i: int|
                0 <= a < k && 0 <= i < sheets[a].anchors.len() ==> {
                    &&& (#[trigger] sheets[a].anchors[i]).id < n
                    &&& sheets[a].anchors[i].position.0 + sheets[a].anchors[i].dimensions.0
                        <= sheets[a].dimensions.0
                    &&& sheets[a].anchors[i].position.1 + sheets[a].anchors[i].dimensions.1
                        <= sheets[a].dimensions.1
                    &&& rep_for(
                        g,
                        ra,
                        flat_anchors(results@.take(a)).len() as int,
                        flat_anchors(results@.take(a + 1)).len() as int,
                        sheets[a].anchors[i],
                    )
                },
            forall|a: int|
                0 <= a < k ==> (#[trigger] sheets[a]).dimensions.0 == extent_x(sheets[a].anchors@)
                    && sheets[a].dimensions.1 == extent_y(sheets[a].anchors@),
            forall|a: int|
                0 <= a < k ==> {
                    &&& (#[trigger] sheets[a]).dimensions == results@[a].dimensions
                    &&& results@[a].anchors.len() <= sheets[a].anchors.len()
                    &&& sheets[a].anchors@.subrange(0, results@[a].anchors.len() as int)
                        == results@[a].anchors@
                    &&& forall|i: int|
                        results@[a].anchors.len() <= i < sheets[a].anchors.len() ==> !is_first_copy(
                            contents_of(input@),
                            (#[trigger] sheets[a].anchors[i]).id as int,
                        )
                },
            forall|a: int|
                0 <= a < k ==> (#[trigger] sheets[a]).stride == stride && sheets[a].bytes.len()
                    == buffer_len(sheets[a].dimensions, stride as int) && sheets[a].bytes@ == composed(
                    sheets[a].dimensions,
                    stride as int,
                    input@,
                    firsts(input@, sheets[a].anchors@),
                ),
        decreases results.len() - k,
    {
        let dims = results[k].dimensions;
        let ghost sheet = results@[k as int];
        let ghost base = flat_anchors(results@.take(k as int)).len() as int;
        let ghost reps = sheet.anchors@;
        let ghost prev = sheet_ids(sheets@);
        proof {
            assert(results@[k as int] == sheet);
            assert(pack::anchors_inside(sheet));
            lemma_buffer_bound(dims, total_width(all), total_height(all), stride as int);
            assert(results@.take(k + 1) =~= results@.take(k as int).push(sheet));
            lemma_flat_anchors_push(results@.take(k as int), sheet);
            lemma_flat_prefix(results@, k + 1);
            assert forall|i: int| 0 <= i < reps.len() implies #[trigger] ra[base + i] == reps[i] by {
                lemma_flat_index(results@, k as int, i);
            }
        }
        let mut buffer = create_pixel_buffer(dims, stride);
        proof {
            assert(reps.subrange(0, 0) =~= Seq::<SpriteAnchor>::empty());
            assert(buffer@ =~= composed(dims, stride as int, input@, reps.subrange(0, 0)));
        }
        let mut anchors: Vec<SpriteAnchor> = Vec::new();
        let mut i: usize = 0;
        while i < results[k].anchors.len()
            invariant
                0 <= k < results.len(),
                sheet == results@[k as int],
                reps == sheet.anchors@,
                i <= reps.len(),
                anchors@ == reps.subrange(0, i as int),
            decreases reps.len() - i,
        {
            anchors.push(results[k].anchors[i]);
            i = i + 1;
        }
        proof {
            assert(anchors@ =~= reps);
            let ids = anchor_ids(anchors@);
            assert forall|y: int, z: int|
                0 <= y < (prev + ids).len() && 0 <= z < (prev + ids).len() && y != z implies (prev
                + ids)[y] != (prev + ids)[z] by {
                if y >= prev.len() && z >= prev.len() {
                    assert(ra[base + (y - prev.len())].id != ra[base + (z - prev.len())].id);
                } else if y < prev.len() && z >= prev.len() {
                    lemma_not_listed_before(input@, g, ra, base, prev, y, base + (z - prev.len()));
                } else if z < prev.len() && y >= prev.len() {
                    lemma_not_listed_before(input@, g, ra, base, prev, z, base + (y - prev.len()));
                }
            }
        }
        let mut i: usize = 0;
        while i < results[k].anchors.len()
            invariant
                n == input.len(),
                contents == contents_of(input@),
                buffers_fit(input@, stride as int),
                groups_wf(contents, g),
                g == group_ids(groups@),
                0 <= k < results.len(),
                sheet == results@[k as int],
                reps == sheet.anchors@,
                dims == sheet.dimensions,
                pack::anchors_inside(sheet),
                0 <= base,
                base == flat_anchors(results@.take(k as int)).len(),
                base + reps.len() <= ra.len(),
                forall|m: int| 0 <= m < reps.len() ==> #[trigger] ra[base + m] == reps[m],
                forall|p: int|
                    0 <= p < ra.len() ==> {
                        &&& (#[trigger] ra[p]).id < n
                        &&& is_first_copy(contents, ra[p].id as int)
                        &&& ra[p].dimensions == input[ra[p].id as int].dimensions
                    },
                forall|p: int, q: int|
                    0 <= p < ra.len() && 0 <= q < ra.len() && p != q ==> (#[trigger] ra[p]).id != (
                    #[trigger] ra[q]).id,
                prev == sheet_ids(sheets@),
                forall|y: int| 0 <= y < prev.len() ==> #[trigger] from_reps(g, ra, 0, base, prev[y]),
                i <= reps.len(),
                buffer.len() == buffer_len(dims, stride as int),
                buffer@ == composed(dims, stride as int, input@, reps.subrange(0, i as int)),
                anchors.len() >= reps.len(),
                anchors@.subrange(0, reps.len() as int) == reps,
                (prev + anchor_ids(anchors@)).no_duplicates(),
                forall|m: int|
                    reps.len() <= m < anchors.len() ==> rep_for(g, ra, base, base + i, #[trigger] anchors@[m])
                        && !is_first_copy(contents, anchors@[m].id as int),
                forall|p: int, t: int|
                    base <= p < base + i && 0 <= t < (#[trigger] g[ra[p].id as int]).len()
                        ==> anchor_ids(anchors@).contains(
                        #[trigger] g[ra[p].id as int][t],
                    ),
            decreases reps.len() - i,
        {
            let anchor = results[k].anchors[i];
            let id = anchor.id;
            proof {
                assert(reps[i as int] == anchor);
                assert(i < reps.len());
                assert(base + i < ra.len());
                assert(ra[base + i] == anchor);
                assert(ra[base + i].id < n);
                assert(groups@.len() == g.len());
                assert(g[id as int] == alias_ids(groups@[id as int]));
                assert(input@[id as int].bytes.len() == buffer_len(input@[id as int].dimensions, stride as int));
            }
            let sprite = Sprite {
                bytes: input[id].bytes.clone(),
                data: SpriteData { id, dimensions: input[id].dimensions },
            };
            let ghost drawn = buffer@;
            write_sprite(&mut buffer, dims, stride, &sprite, &anchor);
            proof {
                assert(sprite.bytes@ == input@[id as int].bytes@);
                assert(reps.subrange(0, i + 1).drop_last() =~= reps.subrange(0, i as int));
                assert(reps.subrange(0, i + 1).last() == anchor);
            }
            let ghost before = anchors@;
            push_aliases(&mut anchors, &groups[id], anchor);
            proof {
                lemma_after_aliases(input@, g, ra, base, i as int, reps, prev, before, anchors@);
            }
            i = i + 1;
        }
        let ghost out = anchors@;
        let ghost sheets_before = sheets@;
        sheets.push(SpriteSheet { bytes: buffer, stride, dimensions: dims, anchors });
        proof {
            let next = base + reps.len();
            assert(flat_anchors(results@.take(k + 1)).len() == next);
            assert(sheets@.drop_last() =~= sheets_before);
            assert(sheet_ids(sheets@) == prev + anchor_ids(out));
            assert forall|y: int| 0 <= y < sheet_ids(sheets@).len() implies #[trigger] from_reps(
                g,
                ra,
                0,
                next,
                sheet_ids(sheets@)[y],
            ) by {
                if y < prev.len() {
                    assert(sheet_ids(sheets@)[y] == prev[y]);
                    assert(from_reps(g, ra, 0, base, prev[y]));
                    let p = choose|p: int| 0 <= p < base && (#[trigger] g[ra[p].id as int]).contains(prev[y]);
                    assert(g[ra[p].id as int].contains(sheet_ids(sheets@)[y]));
                } else {
                    let m = y - prev.len();
                    assert(sheet_ids(sheets@)[y] == out[m].id);
                    if m < reps.len() {
                        assert(out[m] == reps[m]);
                        assert(ra[base + m] == reps[m]);
                        let r0 = reps[m].id as int;
                        assert(g[r0].len() > 0);
                        assert(g[r0][0] == r0);
                        assert(g[ra[base + m].id as int].contains(out[m].id));
                    } else {
                        assert(rep_for(g, ra, base, base + reps.len(), out[m]));
                        let p = choose|p: int|
                            base <= p < base + reps.len() && (#[trigger] g[ra[p].id as int]).contains(out[m].id)
                                && ra[p].position == out[m].position && ra[p].dimensions
                                == out[m].dimensions;
                        assert(g[ra[p].id as int].contains(out[m].id));
                    }
                }
            }
            assert forall|p: int, t: int|
                0 <= p < next && 0 <= t < (#[trigger] g[ra[p].id as int]).len() implies sheet_ids(
                sheets@,
            ).contains(#[trigger] g[ra[p].id as int][t]) by {
                let x = g[ra[p].id as int][t];
                if p < base {
                    let c = choose|c: int| 0 <= c < prev.len() && prev[c] == x;
                    assert(sheet_ids(sheets@)[c] == x);
                } else {
                    let c = choose|c: int| 0 <= c < anchor_ids(out).len() && anchor_ids(out)[c] == x;
                    assert(sheet_ids(sheets@)[prev.len() + c] == x);
                }
            }
            assert forall|a: int, j: int| 0 <= a < k + 1 && 0 <= j < sheets[a].anchors.len() implies {
                &&& (#[trigger] sheets[a].anchors[j]).id < n
                &&& sheets[a].anchors[j].position.0 + sheets[a].anchors[j].dimensions.0
                    <= sheets[a].dimensions.0
                &&& sheets[a].anchors[j].position.1 + sheets[a].anchors[j].dimensions.1
                    <= sheets[a].dimensions.1
                &&& rep_for(
                    g,
                    ra,
                    flat_anchors(results@.take(a)).len() as int,
                    flat_anchors(results@.take(a + 1)).len() as int,
                    sheets[a].anchors[j],
                )
            } by {
                if a < k {
                    assert(sheets[a] == sheets_before[a]);
                } else {
                    assert(sheets[a].anchors@ == out);
                    assert(sheets[a].anchors[j] == out[j]);
                    assert(sheets[a].dimensions == sheet.dimensions);
                    if j < reps.len() {
                        assert(out[j] == reps[j]);
                        assert(ra[base + j] == reps[j]);
                        assert(sheet.anchors[j] == reps[j]);
                        let r0 = reps[j].id as int;
                        assert(g[r0].len() > 0);
                        assert(g[r0][0] == r0);
                        assert(g[ra[base + j].id as int].contains(out[j].id));
                    } else {
                        assert(rep_for(g, ra, base, base + reps.len(), out[j]));
                        let p = choose|p: int|
                            base <= p < base + reps.len() && (#[trigger] g[ra[p].id as int]).contains(out[j].id)
                                && ra[p].position == out[j].position && ra[p].dimensions
                                == out[j].dimensions;
                        assert(ra[base + (p - base)] == reps[p - base]);
                        assert(sheet.anchors[p - base] == reps[p - base]);
                        let r0 = ra[p].id as int;
                        let t = choose|t: int| 0 <= t < g[r0].len() && g[r0][t] == out[j].id;
                        assert(g[r0][t] < contents.len());
                    }
                }
            }
            assert(reps.subrange(0, reps.len() as int) =~= reps);
            assert(out =~= reps + out.subrange(reps.len() as int, out.len() as int));
            assert forall|m: int| 0 <= m < reps.len() implies is_first_copy(
                contents_of(input@),
                (#[trigger] reps[m]).id as int,
            ) by {
                assert(ra[base + m] == reps[m]);
            }
            assert forall|m: int| 0 <= m < out.len() - reps.len() implies !is_first_copy(
                contents_of(input@),
                (#[trigger] out.subrange(reps.len() as int, out.len() as int)[m]).id as int,
            ) by {
                assert(out.subrange(reps.len() as int, out.len() as int)[m] == out[m + reps.len()]);
            }
            lemma_firsts_split(input@, reps, out.subrange(reps.len() as int, out.len() as int));
            assert forall|m: int| reps.len() <= m < out.len() implies repeats_one_of(
                reps,
                #[trigger] out[m],
            ) by {
                assert(rep_for(g, ra, base, base + reps.len(), out[m]));
                let p = choose|p: int|
                    base <= p < base + reps.len() && (#[trigger] g[ra[p].id as int]).contains(out[m].id)
                        && ra[p].position == out[m].position && ra[p].dimensions == out[m].dimensions;
                assert(ra[base + (p - base)] == reps[p - base]);
            }
            lemma_extent_repeats(reps, out);
            assert(sheet.dimensions.0 == extent_x(reps));
            assert forall|a: int| 0 <= a < k + 1 implies (#[trigger] sheets[a]).dimensions.0
                == extent_x(sheets[a].anchors@) && sheets[a].dimensions.1 == extent_y(
                sheets[a].anchors@,
            ) by {
                if a < k {
                    assert(sheets[a] == sheets_before[a]);
                }
            }
            assert forall|a: int| 0 <= a < k + 1 implies {
                &&& (#[trigger] sheets[a]).dimensions == results@[a].dimensions
                &&& results@[a].anchors.len() <= sheets[a].anchors.len()
                &&& sheets[a].anchors@.subrange(0, results@[a].anchors.len() as int)
                    == results@[a].anchors@
                &&& forall|i: int|
                    results@[a].anchors.len() <= i < sheets[a].anchors.len() ==> !is_first_copy(
                        contents_of(input@),
                        (#[trigger] sheets[a].anchors[i]).id as int,
                    )
            } by {
                if a < k {
                    assert(sheets[a] == sheets_before[a]);
                } else {
                    assert(sheets[a].anchors@ == out);
                    assert forall|i: int|
                        results@[a].anchors.len() <= i < sheets[a].anchors.len() implies !is_first_copy(
                        contents_of(input@),
                        (#[trigger] sheets[a].anchors[i]).id as int,
                    ) by {
                        assert(sheets[a].anchors[i] == out[i]);
                        assert(rep_for(g, ra, base, base + reps.len(), out[i]));
                    }
                }
            }
            assert forall|a: int| 0 <= a < k + 1 implies (#[trigger] sheets[a]).stride == stride
                && sheets[a].bytes.len() == buffer_len(sheets[a].dimensions, stride as int)
                && sheets[a].bytes@ == composed(
                sheets[a].dimensions,
                stride as int,
                input@,
                firsts(input@, sheets[a].anchors@),
            ) by {
                if a < k {
                    assert(sheets[a] == sheets_before[a]);
                }
            }
        }
        k = k + 1;
    }
    proof {
        assert(results@.take(results.len() as int) =~= results@);
        lemma_flat_placed(results@);
        assert forall|j: usize| j < n implies #[trigger] sheet_ids(sheets@).contains(j) by {
            assert(listed(g, j as int));
            let rr = choose|rr: int| 0 <= rr < g.len() && (#[trigger] g[rr]).contains(j);
            let t = choose|t: int| 0 <= t < g[rr].len() && g[rr][t] == j;
            assert(g[rr].len() > 0);
            let d = SpriteData { id: rr as usize, dimensions: input[rr].dimensions };
            assert(sprite_data@.contains(d));
            assert(sprite_data@.to_multiset().count(d) > 0);
            assert(placed(results@).to_multiset().count(d) > 0);
            assert(placed(results@).contains(d));
            let p = choose|p: int| 0 <= p < placed(results@).len() && placed(results@)[p] == d;
            assert(anchor_data(ra[p]) == d);
            assert(g[ra[p].id as int][t] == j);
        }
        assert forall|k1: int, i1: int, k2: int, i2: int|
            0 <= k1 < sheets.len() && 0 <= i1 < sheets[k1].anchors.len() && 0 <= k2 < sheets.len() && 0
                <= i2 < sheets[k2].anchors.len() && input[(#[trigger] sheets[k1].anchors[i1]).id as int].bytes@
                == input[(#[trigger] sheets[k2].anchors[i2]).id as int].bytes@ implies {
            &&& k1 == k2
            &&& sheets[k1].anchors[i1].position == sheets[k2].anchors[i2].position
            &&& sheets[k1].anchors[i1].dimensions == sheets[k2].anchors[i2].dimensions
        } by {
            let b1 = sheets[k1].anchors[i1];
            let b2 = sheets[k2].anchors[i2];
            let pa = choose|p: int|
                flat_anchors(results@.take(k1)).len() <= p < flat_anchors(results@.take(k1 + 1)).len()
                    && (#[trigger] g[ra[p].id as int]).contains(b1.id) && ra[p].position == b1.position
                    && ra[p].dimensions == b1.dimensions;
            let pb = choose|p: int|
                flat_anchors(results@.take(k2)).len() <= p < flat_anchors(results@.take(k2 + 1)).len()
                    && (#[trigger] g[ra[p].id as int]).contains(b2.id) && ra[p].position == b2.position
                    && ra[p].dimensions == b2.dimensions;
            lemma_flat_prefix(results@, k1 + 1);
            lemma_flat_prefix(results@, k2 + 1);
            let r1 = ra[pa].id as int;
            let r2 = ra[pb].id as int;
            let t1 = choose|t: int| 0 <= t < g[r1].len() && g[r1][t] == b1.id;
            let t2 = choose|t: int| 0 <= t < g[r2].len() && g[r2][t] == b2.id;
            assert(g[r1][t1] < contents.len());
            assert(g[r2][t2] < contents.len());
            assert(contents[b1.id as int] == input@[b1.id as int].bytes@);
            assert(contents[b2.id as int] == input@[b2.id as int].bytes@);
            assert(contents[r1] == contents[r2]);
            assert(is_first_copy(contents, r1));
            assert(is_first_copy(contents, r2));
            if r1 < r2 {
                assert(contents[r1] != contents[r2]);
            } else if r2 < r1 {
                assert(contents[r2] != contents[r1]);
            }
            assert(pa == pb);
            if k1 < k2 {
                lemma_flat_monotone(results@, k1 + 1, k2);
            } else if k2 < k1 {
                lemma_flat_monotone(results@, k2 + 1, k1);
            }
        }
        assert(sprite_data@ == first_copies(input@, n as nat));
        assert(P::outcome(first_copies(input@, input.len() as nat), opts, results@));
        assert(expands(input@, results@, sheets@));
        assert forall|k: int, i: int| 0 <= k < sheets.len() && 0 <= i < sheets[k].anchors.len()
            implies sized_as_first_copy(input@, #[trigger] sheets[k].anchors[i]) by {
            let b = sheets[k].anchors[i];
            let p = choose|p: int|
                flat_anchors(results@.take(k)).len() <= p < flat_anchors(results@.take(k + 1)).len()
                    && (#[trigger] g[ra[p].id as int]).contains(b.id) && ra[p].position == b.position
                    && ra[p].dimensions == b.dimensions;
            lemma_flat_prefix(results@, k + 1);
            let r0 = ra[p].id as int;
            let t = choose|t: int| 0 <= t < g[r0].len() && g[r0][t] == b.id;
            assert(g[r0][t] < contents.len());
            assert(contents[b.id as int] == contents[r0]);
            assert(contents[b.id as int] == input@[b.id as int].bytes@);
            assert(contents[r0] == input@[r0].bytes@);
        }
        if P::keeps_apart() {
            assert forall|k: int, i: int, j: int|
                0 <= k < sheets.len() && 0 <= i < sheets[k].anchors.len() && 0 <= j < sheets[k].anchors.len()
                    && input[(#[trigger] sheets[k].anchors[i]).id as int].bytes@ != input[(
                #[trigger] sheets[k].anchors[j]).id as int].bytes@ implies !overlap(
                sheets[k].anchors[i],
                sheets[k].anchors[j],
            ) by {
                let b1 = sheets[k].anchors[i];
                let b2 = sheets[k].anchors[j];
                let base = flat_anchors(results@.take(k)).len() as int;
                let pa = choose|p: int|
                    base <= p < flat_anchors(results@.take(k + 1)).len()
                        && (#[trigger] g[ra[p].id as int]).contains(b1.id) && ra[p].position == b1.position
                        && ra[p].dimensions == b1.dimensions;
                let pb = choose|p: int|
                    base <= p < flat_anchors(results@.take(k + 1)).len()
                        && (#[trigger] g[ra[p].id as int]).contains(b2.id) && ra[p].position == b2.position
                        && ra[p].dimensions == b2.dimensions;
                lemma_flat_prefix(results@, k + 1);
                let ra1 = ra[pa].id as int;
                let rb1 = ra[pb].id as int;
                let ta = choose|t: int| 0 <= t < g[ra1].len() && g[ra1][t] == b1.id;
                let tb = choose|t: int| 0 <= t < g[rb1].len() && g[rb1][t] == b2.id;
                assert(g[ra1][ta] < contents.len());
                assert(g[rb1][tb] < contents.len());
                assert(contents[b1.id as int] == input@[b1.id as int].bytes@);
                assert(contents[b2.id as int] == input@[b2.id as int].bytes@);
                assert(contents[b1.id as int] == contents[ra1]);
                assert(contents[b2.id as int] == contents[rb1]);
                assert(pa != pb);
                assert(results@.take(k + 1) =~= results@.take(k).push(results@[k]));
                lemma_flat_anchors_push(results@.take(k), results@[k]);
                lemma_flat_index(results@, k, pa - base);
                lemma_flat_index(results@, k, pb - base);
                assert(no_overlap(results@[k]));
                assert(!overlap(results@[k].anchors[pa - base], results@[k].anchors[pb - base]));
            }
        }
    }
    sheets
}

} // verus!
