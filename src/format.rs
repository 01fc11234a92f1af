use vstd::prelude::*;

use crate::sprite::SpriteAnchor;

verus! {

/// Turns the placements of one sheet into the data of a metadata format.
pub trait Format {
    type Data;
    type Options;

    /// The options can serve these anchors.
    spec fn accepts(sprites: Seq<SpriteAnchor>, options: Self::Options) -> bool;

    /// `data` is what the format makes of the sheet.
    spec fn encodes(
        dimensions: (u32, u32),
        sprites: Seq<SpriteAnchor>,
        options: Self::Options,
        data: Self::Data,
    ) -> bool;

    fn encode(dimensions: (u32, u32), sprites: &[SpriteAnchor], options: Self::Options) -> (r:
        Self::Data)
        requires
            Self::accepts(sprites@, options),
        ensures
            Self::encodes(dimensions, sprites@, options, r),
    ;
}

/// The metadata of the Amethyst engine: the sheet's size and one rectangle
/// per sprite, in anchor order.
pub struct AmethystFormat;

/// The Amethyst metadata of the sheets that carry names: one name per
/// sprite id, given as the options.
pub struct AmethystNamedFormat;

/// The outer shape of the Amethyst metadata.
#[derive(Clone, Debug, PartialEq, Eq)]
pub enum Wrapper<T> {
    List(T),
}

/// Where one sprite lies in the sheet, in pixels.
#[derive(Clone, Copy, Debug, PartialEq, Eq, Structural)]
pub struct SpriteRect {
    pub x: u32,
    pub y: u32,
    pub width: u32,
    pub height: u32,
}

/// A sheet's size and the rectangles of its sprites.
#[derive(Debug)]
pub struct SheetLayout {
    pub texture_width: u32,
    pub texture_height: u32,
    pub sprites: Vec<SpriteRect>,
}

/// Where one named sprite lies in the sheet, in pixels.
#[derive(Debug)]
pub struct NamedSpriteRect {
    pub name: String,
    pub x: u32,
    pub y: u32,
    pub width: u32,
    pub height: u32,
}

/// A sheet's size and the named rectangles of its sprites.
#[derive(Debug)]
pub struct NamedSheetLayout {
    pub texture_width: u32,
    pub texture_height: u32,
    pub sprites: Vec<NamedSpriteRect>,
}

/// The rectangle an anchor covers.
pub open spec fn rect_of(a: SpriteAnchor) -> SpriteRect {
    SpriteRect { x: a.position.0, y: a.position.1, width: a.dimensions.0, height: a.dimensions.1 }
}

impl Format for AmethystFormat {
    type Data = Wrapper<SheetLayout>;
    type Options = ();

    open spec fn accepts(sprites: Seq<SpriteAnchor>, options: ()) -> bool {
        true
    }

    open spec fn encodes(
        dimensions: (u32, u32),
        sprites: Seq<SpriteAnchor>,
        options: (),
        data: Wrapper<SheetLayout>,
    ) -> bool {
        match data {
            Wrapper::List(layout) => {
                &&& layout.texture_width == dimensions.0
                &&& layout.texture_height == dimensions.1
                &&& layout.sprites@ == sprites.map_values(|a: SpriteAnchor| rect_of(a))
            },
        }
    }

    fn encode(dimensions: (u32, u32), sprites: &[SpriteAnchor], _options: ()) -> (r: Wrapper<
        SheetLayout,
    >) {
        let mut rects: Vec<SpriteRect> = Vec::new();
        let mut i: usize = 0;
        while i < sprites.len()
            invariant
                i <= sprites.len(),
                rects@ == sprites@.subrange(0, i as int).map_values(|a: SpriteAnchor| rect_of(a)),
            decreases sprites.len() - i,
        {
            let a = sprites[i];
            rects.push(
                SpriteRect {
                    x: a.position.0,
                    y: a.position.1,
                    width: a.dimensions.0,
                    height: a.dimensions.1,
                },
            );
            proof {
                assert(sprites@.subrange(0, i + 1).map_values(|a: SpriteAnchor| rect_of(a))
                    =~= sprites@.subrange(0, i as int).map_values(|a: SpriteAnchor| rect_of(a)).push(
                    rect_of(a),
                ));
            }
            i = i + 1;
        }
        proof {
            assert(sprites@.subrange(0, sprites@.len() as int) =~= sprites@);
        }
        Wrapper::List(
            SheetLayout { texture_width: dimensions.0, texture_height: dimensions.1, sprites: rects },
        )
    }
}

impl Format for AmethystNamedFormat {
    type Data = NamedSheetLayout;
    type Options = Vec<String>;

    open spec fn accepts(sprites: Seq<SpriteAnchor>, options: Vec<String>) -> bool {
        forall|i: int| 0 <= i < sprites.len() ==> (#[trigger] sprites[i]).id < options.len()
    }

    open spec fn encodes(
        dimensions: (u32, u32),
        sprites: Seq<SpriteAnchor>,
        options: Vec<String>,
        data: NamedSheetLayout,
    ) -> bool {
        &&& data.texture_width == dimensions.0
        &&& data.texture_height == dimensions.1
        &&& data.sprites.len() == sprites.len()
        &&& forall|i: int|
            0 <= i < sprites.len() ==> {
                let n = #[trigger] data.sprites[i];
                &&& n.name@ == options[sprites[i].id as int]@
                &&& n.x == sprites[i].position.0
                &&& n.y == sprites[i].position.1
                &&& n.width == sprites[i].dimensions.0
                &&& n.height == sprites[i].dimensions.1
            }
    }

    fn encode(dimensions: (u32, u32), sprites: &[SpriteAnchor], options: Vec<String>) -> (r:
        NamedSheetLayout) {
        let mut named: Vec<NamedSpriteRect> = Vec::new();
        let mut i: usize = 0;
        while i < sprites.len()
            invariant
                i <= sprites.len(),
                forall|m: int| 0 <= m < sprites.len() ==> (#[trigger] sprites@[m]).id < options.len(),
                named.len() == i,
                forall|m: int|
                    0 <= m < i ==> {
                        let n = #[trigger] named[m];
                        &&& n.name@ == options[sprites[m].id as int]@
                        &&& n.x == sprites[m].position.0
                        &&& n.y == sprites[m].position.1
                        &&& n.width == sprites[m].dimensions.0
                        &&& n.height == sprites[m].dimensions.1
                    },
            decreases sprites.len() - i,
        {
            let a = sprites[i];
            assert(sprites@[i as int].id < options.len());
            named.push(
                NamedSpriteRect {
                    name: options[a.id].clone(),
                    x: a.position.0,
                    y: a.position.1,
                    width: a.dimensions.0,
                    height: a.dimensions.1,
                },
            );
            i = i + 1;
        }
        NamedSheetLayout { texture_width: dimensions.0, texture_height: dimensions.1, sprites: named }
    }
}

} // verus!
