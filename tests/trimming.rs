use sheep::{trim, InputSprite};

fn rgba(pixels: &[(u8, u8, u8, u8)], dimensions: (u32, u32)) -> InputSprite {
    let mut bytes = Vec::new();
    for p in pixels {
        bytes.extend_from_slice(&[p.0, p.1, p.2, p.3]);
    }
    InputSprite { bytes, dimensions }
}

#[test]
fn transparent_sprite_trims_to_nothing() {
    let s = rgba(&[(5, 5, 5, 0), (7, 7, 7, 0)], (2, 1));
    let out = s.trimmed(4, 3);
    assert_eq!(out.dimensions, (0, 0));
    assert!(out.bytes.is_empty());
}

#[test]
fn opaque_sprite_is_unchanged() {
    let s = rgba(&[(1, 2, 3, 4), (5, 6, 7, 8), (9, 10, 11, 12), (13, 14, 15, 16)], (2, 2));
    let out = s.trimmed(4, 3);
    assert_eq!(out.dimensions, (2, 2));
    assert_eq!(out.bytes, s.bytes);
}

#[test]
fn trim_crops_to_bounding_box() {
    // 4x3, opaque pixels at (1,0) and (2,2); (3,1) has colour but no alpha
    let t = (0, 0, 0, 0);
    let mut pixels = vec![t; 12];
    pixels[1] = (10, 10, 10, 255);
    pixels[2 * 4 + 2] = (20, 20, 20, 1);
    pixels[4 + 3] = (30, 30, 30, 0);
    let s = rgba(&pixels, (4, 3));
    let out = s.trimmed(4, 3);
    assert_eq!(out.dimensions, (2, 3));
    let expected = rgba(
        &[
            (10, 10, 10, 255),
            t,
            t,
            t,
            t,
            (20, 20, 20, 1),
        ],
        (2, 3),
    );
    assert_eq!(out.bytes, expected.bytes);
}

#[test]
fn trim_widens_from_middle_rows() {
    // the leftmost and rightmost opaque pixels sit in a middle row
    let t = (0, 0, 0, 0);
    let o = (1, 1, 1, 9);
    let pixels = vec![
        t, t, o, t, t, //
        o, t, t, t, o, //
        t, t, o, t, t,
    ];
    let s = rgba(&pixels, (5, 3));
    let out = s.trimmed(4, 3);
    assert_eq!(out.dimensions, (5, 3));
    assert_eq!(out.bytes, s.bytes);
}

#[test]
fn trim_twice_is_trim_once() {
    let t = (0, 0, 0, 0);
    let pixels = vec![t, t, t, t, (3, 3, 3, 3), t, t, (4, 4, 4, 4), t];
    let s = rgba(&pixels, (3, 3));
    let once = s.trimmed(4, 3);
    let twice = once.trimmed(4, 3);
    assert_eq!(once.dimensions, (1, 2));
    assert_eq!(once.bytes, vec![3, 3, 3, 3, 4, 4, 4, 4]);
    assert_eq!(twice.dimensions, once.dimensions);
    assert_eq!(twice.bytes, once.bytes);
}

#[test]
fn trim_keeps_order_and_count() {
    let a = rgba(&[(0, 0, 0, 0), (1, 1, 1, 1)], (2, 1));
    let b = rgba(&[(2, 2, 2, 2)], (1, 1));
    let out = trim(&[a, b], 4, 3);
    assert_eq!(out.len(), 2);
    assert_eq!(out[0].dimensions, (1, 1));
    assert_eq!(out[0].bytes, vec![1, 1, 1, 1]);
    assert_eq!(out[1].bytes, vec![2, 2, 2, 2]);
}
