use sheep::{
    remove_redundant_rects, MaxRectsBin, MaxrectsOptions, MaxrectsPacker, Packer, PackerResult,
    Rect, ScoreResult, SimplePacker, SpriteData,
};

fn overlaps(r: &PackerResult) -> bool {
    for (i, a) in r.anchors.iter().enumerate() {
        for b in r.anchors.iter().skip(i + 1) {
            if a.position.0 < b.position.0 + b.dimensions.0
                && b.position.0 < a.position.0 + a.dimensions.0
                && a.position.1 < b.position.1 + b.dimensions.1
                && b.position.1 < a.position.1 + a.dimensions.1
            {
                return true;
            }
        }
    }
    false
}

#[test]
fn remove_redundant() {
    let mut rects = Vec::new();
    for i in 0..10 {
        rects.push(Rect::xywh(i * 10, 0, 10, 10));
        rects.push(Rect::xywh(i * 10 + 2, 2, 6, 6));
    }

    assert_eq!(rects.len(), 20);
    remove_redundant_rects(&mut rects);
    assert_eq!(rects.len(), 10);

    for rect in &rects {
        assert_eq!((rect.max_x - rect.min_x), 10);
        assert_eq!((rect.max_y - rect.min_y), 10);
    }
}

#[test]
fn pack_regular() {
    let mut sprites = (0..10)
        .map(|i| SpriteData::new(i, (10, 10)))
        .collect::<Vec<SpriteData>>();

    let options = MaxrectsOptions::default()
        .preferred_width(10 * 10)
        .preferred_height(10 * 10);

    let result = MaxrectsPacker::pack(&sprites, options);
    let first = result.iter().next().expect("should have 1 result");

    assert_eq!(result.len(), 1);

    assert_eq!(first.dimensions.0, 10);
    assert_eq!(first.dimensions.1, 10 * 10);

    sprites.push(SpriteData::new(11, (10, 20)));
    let result = MaxrectsPacker::pack(&sprites, options);
    let first = result.iter().next().expect("should have 1 result");

    assert_eq!(first.dimensions.0, 30);
    assert_eq!(first.dimensions.1, 100);
}

#[test]
fn pack_oversized() {
    let oversized = (0..1000)
        .map(|i| SpriteData::new(i, (100, 100)))
        .collect::<Vec<SpriteData>>();

    let options = MaxrectsOptions::default()
        .preferred_width(50)
        .preferred_height(50);

    let result = MaxrectsPacker::pack(&oversized, options);

    assert_eq!(result.len(), oversized.len());
    for bin in result {
        assert_eq!(bin.dimensions.0, 100);
        assert_eq!(bin.dimensions.1, 100);
    }
}

#[test]
fn pack_square() {
    let sprites = (0..16)
        .map(|i| SpriteData::new(i, (20, 20)))
        .collect::<Vec<SpriteData>>();

    let result = SimplePacker::pack(&sprites, ());

    assert_eq!(result[0].dimensions.0, 20 * 4);
    assert_eq!(result[0].dimensions.1, 20 * 4);
}

#[test]
fn oversized_sprites_come_last_on_their_own() {
    let sprites = vec![
        SpriteData::new(0, (60, 10)),
        SpriteData::new(1, (5, 5)),
        SpriteData::new(2, (10, 70)),
    ];
    let options = MaxrectsOptions::default().preferred_width(50).preferred_height(50);
    let result = MaxrectsPacker::pack(&sprites, options);
    assert_eq!(result.len(), 3);
    assert_eq!(result[0].anchors.len(), 1);
    assert_eq!(result[0].anchors[0].id, 1);
    assert_eq!(result[0].dimensions, (5, 5));
    assert_eq!(result[1].dimensions, (60, 10));
    assert_eq!(result[1].anchors[0].id, 0);
    assert_eq!(result[1].anchors[0].position, (0, 0));
    assert_eq!(result[2].dimensions, (10, 70));
    assert_eq!(result[2].anchors[0].id, 2);
}

#[test]
fn maxrects_sheets_are_tight_and_disjoint() {
    let sprites: Vec<SpriteData> = (0..40)
        .map(|i| SpriteData::new(i, (1 + (i as u32 * 7) % 13, 1 + (i as u32 * 5) % 11)))
        .collect();
    let options = MaxrectsOptions::default().preferred_width(32).preferred_height(32);
    let result = MaxrectsPacker::pack(&sprites, options);
    let mut ids: Vec<usize> = Vec::new();
    for sheet in &result {
        assert!(!overlaps(sheet));
        let w = sheet.anchors.iter().map(|a| a.position.0 + a.dimensions.0).max().unwrap_or(0);
        let h = sheet.anchors.iter().map(|a| a.position.1 + a.dimensions.1).max().unwrap_or(0);
        assert_eq!(sheet.dimensions, (w, h));
        for a in &sheet.anchors {
            assert_eq!(a.dimensions, sprites[a.id].dimensions);
            ids.push(a.id);
        }
    }
    ids.sort();
    assert_eq!(ids, (0..40).collect::<Vec<usize>>());
}

#[test]
fn maxrects_empty_input_gives_no_sheet() {
    let result = MaxrectsPacker::pack(&[], MaxrectsOptions::default());
    assert!(result.is_empty());
}

#[test]
fn simple_packer_keeps_input_order() {
    let sprites = vec![
        SpriteData::new(0, (2, 2)),
        SpriteData::new(1, (4, 4)),
        SpriteData::new(2, (1, 3)),
    ];
    let result = SimplePacker::pack(&sprites, ());
    assert_eq!(result.len(), 1);
    let ids: Vec<usize> = result[0].anchors.iter().map(|a| a.id).collect();
    assert_eq!(ids, vec![0, 1, 2]);
    // the largest sprite goes first, at the origin
    assert_eq!(result[0].anchors[1].position, (0, 0));
    for a in &result[0].anchors {
        assert!(a.position.0 + a.dimensions.0 <= result[0].dimensions.0);
        assert!(a.position.1 + a.dimensions.1 <= result[0].dimensions.1);
    }
}

#[test]
fn rect_predicates() {
    let outer = Rect::new(0, 0, 10, 10);
    let inner = Rect::xywh(2, 3, 4, 5);
    assert_eq!(inner, Rect::new(2, 3, 6, 8));
    assert!(outer.contains(&inner));
    assert!(!inner.contains(&outer));
    assert!(!outer.no_intersection(&inner));
    assert!(Rect::xywh(10, 0, 5, 5).no_intersection(&outer));
    assert!(Rect::xywh(0, 10, 5, 5).no_intersection(&outer));
}

#[test]
fn score_prefers_short_side_fit() {
    let mut bin = MaxRectsBin::new(10, 10);
    assert!(matches!(bin.score_rect(11, 1), ScoreResult::NoFit));
    match bin.score_rect(10, 4) {
        ScoreResult::FitFound(score) => {
            assert_eq!(score.placement, Rect::xywh(0, 0, 10, 4));
            assert_eq!(score.primary, 0);
            assert_eq!(score.secondary, 6);
        }
        ScoreResult::NoFit => panic!("a 10x4 sprite fits a 10x10 bin"),
    }
    let rest = bin.insert_sprites(&[SpriteData::new(0, (10, 4)), SpriteData::new(1, (8, 8))]);
    assert_eq!(rest.len(), 1);
    assert_eq!(rest[0].id, 1);
    let result = bin.to_result();
    assert_eq!(result.dimensions, (10, 4));
    assert_eq!(result.anchors[0].position, (0, 0));
}

#[test]
fn oversized_bin_reports_sprite_size() {
    let bin = MaxRectsBin::oversized((70, 30), 3);
    let result = bin.to_result();
    assert_eq!(result.dimensions, (70, 30));
    assert_eq!(result.anchors.len(), 1);
    assert_eq!(result.anchors[0].id, 3);
}

#[test]
fn place_best_takes_lowest_score_first() {
    let mut bin = MaxRectsBin::new(10, 10);
    // 10x3 leaves (0, 7), 4x10 leaves (6, 0), 9x9 leaves (1, 1): the 10x3 and
    // 4x10 tie on the short side, and the 4x10 has the smaller long side
    let mut remaining = vec![
        SpriteData::new(0, (9, 9)),
        SpriteData::new(1, (4, 10)),
        SpriteData::new(2, (10, 3)),
    ];
    assert!(bin.place_best(&mut remaining));
    let ids: Vec<usize> = remaining.iter().map(|s| s.id).collect();
    assert_eq!(ids, vec![0, 2]);
    let result = bin.to_result();
    assert_eq!(result.anchors[0].id, 1);
    assert_eq!(result.anchors[0].position, (0, 0));
    assert_eq!(result.dimensions, (4, 10));

    let mut too_big = vec![SpriteData::new(5, (11, 1))];
    let mut empty = MaxRectsBin::new(10, 10);
    assert!(!empty.place_best(&mut too_big));
    assert_eq!(too_big.len(), 1);
}

#[test]
fn simple_packer_can_overlap() {
    // the corner heuristic guarantees coverage and bounds, not disjointness
    let sizes = [(3, 4), (3, 5), (1, 2), (1, 4), (4, 2), (1, 5)];
    let sprites: Vec<SpriteData> = sizes
        .iter()
        .enumerate()
        .map(|(i, d)| SpriteData::new(i, *d))
        .collect();
    let result = SimplePacker::pack(&sprites, ());
    assert!(overlaps(&result[0]));
    for a in &result[0].anchors {
        assert!(a.position.0 + a.dimensions.0 <= result[0].dimensions.0);
        assert!(a.position.1 + a.dimensions.1 <= result[0].dimensions.1);
    }
}

#[test]
fn simple_packer_sorts_anchors_by_id() {
    let sprites = vec![SpriteData::new(1, (1, 1)), SpriteData::new(0, (1, 1))];
    let result = SimplePacker::pack(&sprites, ());
    let ids: Vec<usize> = result[0].anchors.iter().map(|a| a.id).collect();
    assert_eq!(ids, vec![0, 1]);
}

#[test]
fn simple_packer_overlaps_third_sprite() {
    let sprites = vec![
        SpriteData::new(0, (4, 4)),
        SpriteData::new(1, (3, 5)),
        SpriteData::new(2, (7, 2)),
    ];
    let result = SimplePacker::pack(&sprites, ());
    assert!(overlaps(&result[0]));
    assert_eq!(result[0].dimensions, (7, 6));
}

#[test]
fn oversized_sheets_follow_input_order() {
    let sprites = vec![
        SpriteData::new(0, (9, 1)),
        SpriteData::new(1, (2, 2)),
        SpriteData::new(2, (1, 8)),
        SpriteData::new(3, (9, 9)),
    ];
    let options = MaxrectsOptions::default().preferred_width(5).preferred_height(5);
    let result = MaxrectsPacker::pack(&sprites, options);
    let tail: Vec<usize> = result[1..].iter().map(|r| r.anchors[0].id).collect();
    assert_eq!(tail, vec![0, 2, 3]);
    assert_eq!(result[0].anchors[0].id, 1);
}
