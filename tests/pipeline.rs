use sheep::{
    alias_groups, alias_list_ids, create_pixel_buffer, encode, pack, trim, write_sprite,
    AmethystFormat, AmethystNamedFormat, InputSprite, MaxrectsOptions, MaxrectsPacker,
    SimplePacker, Sprite, SpriteAnchor, SpriteData, SpriteSheet, Wrapper,
};

fn sprite(bytes: Vec<u8>, dimensions: (u32, u32)) -> InputSprite {
    InputSprite { bytes, dimensions }
}

fn all_ids(sheets: &[SpriteSheet]) -> Vec<usize> {
    let mut ids: Vec<usize> = sheets
        .iter()
        .flat_map(|s| s.anchors.iter().map(|a| a.id))
        .collect();
    ids.sort();
    ids
}

#[test]
fn alias_test() {
    let bytes1 = vec![0, 0, 0, 0];
    let bytes2 = vec![1, 1, 1, 1];
    let dimensions = (1, 1);
    let sprite1 = InputSprite {
        bytes: bytes1,
        dimensions,
    };
    let sprite2 = InputSprite {
        bytes: bytes2,
        dimensions,
    };

    let input = vec![sprite1.clone(), sprite1, sprite2];
    let sheets = pack::<SimplePacker>(input, 4, ());

    assert_eq!(sheets[0].anchors.len(), 3);
    assert_eq!(sheets[0].bytes.len(), 8);
}

#[test]
fn alias_with_trimming_test() {
    let bytes1 = vec![1, 1, 1, 1];
    let bytes2 = vec![1, 1, 1, 1, 1, 1, 1, 0];
    let sprite1 = InputSprite {
        bytes: bytes1,
        dimensions: (1, 1),
    };
    let sprite2 = InputSprite {
        bytes: bytes2,
        dimensions: (2, 1),
    };

    let input = vec![sprite2.clone(), sprite1.clone(), sprite1, sprite2];
    let input = trim(input.as_slice(), 4, 3);
    let sheets = pack::<SimplePacker>(input, 4, ());

    assert_eq!(sheets[0].anchors.len(), 4);
    assert_eq!(sheets[0].bytes.len(), 4);
}

#[test]
fn identical_sprites_written_once() {
    // two identical 1x1 RGBA sprites and one distinct one
    let a = sprite(vec![9, 8, 7, 6], (1, 1));
    let b = sprite(vec![1, 2, 3, 4], (1, 1));
    let sheets = pack::<MaxrectsPacker>(
        vec![a.clone(), a, b],
        4,
        MaxrectsOptions::default().preferred_width(10).preferred_height(10),
    );
    assert_eq!(sheets.len(), 1);
    let sheet = &sheets[0];
    assert_eq!(sheet.anchors.len(), 3);
    assert_eq!(sheet.dimensions.0 * sheet.dimensions.1, 2);
    assert_eq!(sheet.bytes.len(), 8);
    let first = sheet.anchors.iter().find(|x| x.id == 0).unwrap();
    let second = sheet.anchors.iter().find(|x| x.id == 1).unwrap();
    assert_eq!(first.position, second.position);
    assert_eq!(first.dimensions, second.dimensions);
    // both distinct contents appear in the sheet, each once
    let mut pixels: Vec<Vec<u8>> = sheet.bytes.chunks(4).map(|c| c.to_vec()).collect();
    pixels.sort();
    assert_eq!(pixels, vec![vec![1, 2, 3, 4], vec![9, 8, 7, 6]]);
}

#[test]
fn every_id_exactly_once() {
    let mut input = Vec::new();
    for i in 0..12u8 {
        let w = 1 + (i % 3) as u32;
        let h = 1 + (i % 4) as u32;
        let bytes = vec![i % 5; (w * h * 4) as usize];
        input.push(sprite(bytes, (w, h)));
    }
    let sheets = pack::<MaxrectsPacker>(
        input,
        4,
        MaxrectsOptions::default().preferred_width(4).preferred_height(4),
    );
    assert_eq!(all_ids(&sheets), (0..12).collect::<Vec<usize>>());
    for sheet in &sheets {
        assert_eq!(sheet.stride, 4);
        assert_eq!(
            sheet.bytes.len(),
            (sheet.dimensions.0 * sheet.dimensions.1 * 4) as usize
        );
        for a in &sheet.anchors {
            assert!(a.position.0 + a.dimensions.0 <= sheet.dimensions.0);
            assert!(a.position.1 + a.dimensions.1 <= sheet.dimensions.1);
        }
    }
}

#[test]
fn pack_empty_input() {
    let sheets = pack::<MaxrectsPacker>(Vec::new(), 4, MaxrectsOptions::default());
    assert!(sheets.is_empty());
    let sheets = pack::<SimplePacker>(Vec::new(), 4, ());
    assert_eq!(sheets.len(), 1);
    assert_eq!(sheets[0].dimensions, (0, 0));
    assert!(sheets[0].anchors.is_empty());
    assert!(sheets[0].bytes.is_empty());
}

#[test]
fn pixels_land_at_their_anchor() {
    // a 2x1 red/green sprite and a 1x1 blue one, stride 3
    let a = sprite(vec![255, 0, 0, 0, 255, 0], (2, 1));
    let b = sprite(vec![0, 0, 255], (1, 1));
    let sheets = pack::<MaxrectsPacker>(
        vec![a, b],
        3,
        MaxrectsOptions::default().preferred_width(2).preferred_height(2),
    );
    assert_eq!(sheets.len(), 1);
    let sheet = &sheets[0];
    assert_eq!(sheet.dimensions, (2, 2));
    let row = (sheet.dimensions.0 * 3) as usize;
    for anchor in &sheet.anchors {
        let expected: &[u8] = if anchor.id == 0 {
            &[255, 0, 0, 0, 255, 0]
        } else {
            &[0, 0, 255]
        };
        let start = anchor.position.1 as usize * row + anchor.position.0 as usize * 3;
        let len = anchor.dimensions.0 as usize * 3;
        assert_eq!(&sheet.bytes[start..start + len], expected);
    }
}

#[test]
fn create_pixel_buffer_is_zeroed() {
    let buffer = create_pixel_buffer((3, 2), 4);
    assert_eq!(buffer.len(), 24);
    assert!(buffer.iter().all(|b| *b == 0));
    assert!(create_pixel_buffer((0, 5), 4).is_empty());
}

#[test]
fn write_sprite_copies_rows() {
    let mut buffer = create_pixel_buffer((3, 3), 1);
    let sprite = Sprite {
        bytes: vec![1, 2, 3, 4],
        data: SpriteData::new(0, (2, 2)),
    };
    let anchor = SpriteAnchor::new(0, (1, 1), (2, 2));
    write_sprite(&mut buffer, (3, 3), 1, &sprite, &anchor);
    assert_eq!(buffer, vec![0, 0, 0, 0, 1, 2, 0, 3, 4]);
}

#[test]
fn sprite_from_input_keeps_bytes() {
    let s = Sprite::from_input(7, sprite(vec![5, 6, 7, 8], (1, 1)));
    assert_eq!(s.data.id, 7);
    assert_eq!(s.data.dimensions, (1, 1));
    assert_eq!(s.bytes, vec![5, 6, 7, 8]);
}

#[test]
fn alias_groups_follow_content() {
    let a = sprite(vec![1, 1, 1, 1], (1, 1));
    let b = sprite(vec![2, 2, 2, 2], (1, 1));
    let groups = alias_groups(&vec![a.clone(), b.clone(), a, b.clone(), b]);
    let ids: Vec<Vec<usize>> = groups.iter().map(alias_list_ids).collect();
    assert_eq!(ids, vec![vec![0, 2], vec![1, 3, 4], vec![], vec![], vec![]]);
}

#[test]
fn alias_groups_tell_equal_lengths_apart() {
    // same length, different bytes: separate groups
    let a = sprite(vec![0, 0, 0, 1], (1, 1));
    let b = sprite(vec![0, 0, 0, 2], (1, 1));
    let groups = alias_groups(&vec![a, b]);
    let ids: Vec<Vec<usize>> = groups.iter().map(alias_list_ids).collect();
    assert_eq!(ids, vec![vec![0], vec![1]]);
}

#[test]
fn encode_amethyst_lists_rectangles() {
    let a = sprite(vec![1; 8], (2, 1));
    let b = sprite(vec![2; 4], (1, 1));
    let sheets = pack::<SimplePacker>(vec![a, b], 4, ());
    let sheet = &sheets[0];
    let Wrapper::List(layout) = encode::<AmethystFormat>(sheet, ());
    assert_eq!(layout.texture_width, sheet.dimensions.0);
    assert_eq!(layout.texture_height, sheet.dimensions.1);
    assert_eq!(layout.sprites.len(), 2);
    for (rect, anchor) in layout.sprites.iter().zip(sheet.anchors.iter()) {
        assert_eq!((rect.x, rect.y), anchor.position);
        assert_eq!((rect.width, rect.height), anchor.dimensions);
    }
}

#[test]
fn encode_named_uses_ids() {
    let a = sprite(vec![1; 4], (1, 1));
    let b = sprite(vec![2; 4], (1, 1));
    let sheets = pack::<SimplePacker>(vec![a, b], 4, ());
    let sheet = &sheets[0];
    let names = vec![String::from("first"), String::from("second")];
    let layout = encode::<AmethystNamedFormat>(sheet, names);
    assert_eq!(layout.sprites.len(), 2);
    for (named, anchor) in layout.sprites.iter().zip(sheet.anchors.iter()) {
        let expected = if anchor.id == 0 { "first" } else { "second" };
        assert_eq!(named.name, expected);
        assert_eq!((named.x, named.y), anchor.position);
    }
}

#[test]
fn sheets_are_bounding_boxes() {
    let mut input = Vec::new();
    for i in 0..9u8 {
        let w = 1 + (i % 4) as u32;
        let h = 1 + (i % 3) as u32;
        input.push(sprite(vec![i / 2; (w * h * 4) as usize], (w, h)));
    }
    let simple = pack::<SimplePacker>(input.clone(), 4, ());
    let maxrects = pack::<MaxrectsPacker>(
        input,
        4,
        MaxrectsOptions::default().preferred_width(6).preferred_height(6),
    );
    for sheet in simple.iter().chain(maxrects.iter()) {
        let w = sheet.anchors.iter().map(|a| a.position.0 + a.dimensions.0).max().unwrap_or(0);
        let h = sheet.anchors.iter().map(|a| a.position.1 + a.dimensions.1).max().unwrap_or(0);
        assert_eq!(sheet.dimensions, (w, h));
    }
    assert_eq!(all_ids(&simple), (0..9).collect::<Vec<usize>>());
    assert_eq!(all_ids(&maxrects), (0..9).collect::<Vec<usize>>());
}
