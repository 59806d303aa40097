//! Pixel copies between RGBA buffers, done by the `image` crate.
use vstd::prelude::*;
use image::{GenericImage, ImageBuffer, ImageError, Rgba};

verus! {

#[verifier::external_type_specification]
#[verifier::external_body]
pub struct ExImageError(ImageError);

/// `tile` (an RGBA picture `tw` pixels wide and `th` high, row after row,
/// four bytes a pixel) copied onto `canvas` (an RGBA picture `cw` pixels
/// wide) with its top-left corner at `(x, y)`: the canvas bytes of the
/// pixels that the tile covers are the tile's, the others are the canvas's.
pub open spec fn blit(canvas: Seq<u8>, cw: int, tile: Seq<u8>, tw: int, th: int, x: int, y: int) -> Seq<u8> {
    Seq::new(
        canvas.len(),
        |i: int|
            {
                let px = (i / 4) % cw;
                let py = (i / 4) / cw;
                if x <= px < x + tw && y <= py < y + th {
                    tile[((py - y) * tw + (px - x)) * 4 + i % 4]
                } else {
                    canvas[i]
                }
            },
    )
}

/// Copies an RGBA tile onto an RGBA canvas with `image`'s
/// `GenericImage::copy_from` on two `ImageBuffer<Rgba<u8>, _>` views of the
/// buffers.  As its source shows, `copy_from` fails with an error and
/// leaves the canvas untouched when the tile placed at `(x, y)` does not
/// lie inside the canvas, and otherwise writes every tile pixel to the
/// canvas pixel `(x + i, y + k)` and nothing else.  `from_raw` accepts the
/// buffers since their lengths are those of pictures of the given sizes;
/// `copy_from` adds the tile's size to `(x, y)`, which must not overflow.
#[verifier::external_body]
pub(crate) fn copy_tile(
    canvas: &mut Vec<u8>,
    cw: u32,
    ch: u32,
    tile: &Vec<u8>,
    tw: u32,
    th: u32,
    x: u32,
    y: u32,
) -> (copied: Result<(), ImageError>)
    requires
        old(canvas)@.len() == cw as int * ch as int * 4,
        tile@.len() == tw as int * th as int * 4,
        tw + x <= u32::MAX,
        th + y <= u32::MAX,
    ensures
        copied is Ok <==> (tw + x <= cw && th + y <= ch),
        copied is Ok ==> final(canvas)@ == blit(old(canvas)@, cw as int, tile@, tw as int, th as int, x as int, y as int),
        copied is Err ==> final(canvas)@ == old(canvas)@,
{
    let mut target = ImageBuffer::<Rgba<u8>, Vec<u8>>::from_raw(cw, ch, std::mem::take(canvas)).unwrap();
    let source = ImageBuffer::<Rgba<u8>, &[u8]>::from_raw(tw, th, tile.as_slice()).unwrap();
    let copied = target.copy_from(&source, x, y);
    *canvas = target.into_raw();
    copied
}

} // verus!
