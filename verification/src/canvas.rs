//! The page in memory, and the PNG file that it becomes.
use crate::picture::{Picture, MAX_SIDE};
use crate::profile::RenderError;
use crate::words::joined;
use tiny_skia::{Color, Pixmap};
use vstd::prelude::*;

verus! {

/// The raster image of `tiny_skia`: premultiplied RGBA pixels, row after row.
#[verifier::external_type_specification]
#[verifier::external_body]
pub struct ExPixmap(tiny_skia::Pixmap);

/// The pixels along the upper side of a raster image.
pub uninterp spec fn pixmap_width(pixmap: Pixmap) -> u32;

/// The pixels along the left side of a raster image.
pub uninterp spec fn pixmap_height(pixmap: Pixmap) -> u32;

/// The bytes of a raster image, four for each pixel.
pub uninterp spec fn pixmap_bytes(pixmap: Pixmap) -> Seq<u8>;

/// The PNG file for a raster image of that width, height and contents, or the message of
/// the error that encoding it ends with.
pub uninterp spec fn png_encoding(width: u32, height: u32, bytes: Seq<u8>) -> Result<
    Seq<u8>,
    Seq<char>,
>;

/// `n` copies of a byte.
pub open spec fn repeated(byte: u8, n: nat) -> Seq<u8> {
    Seq::new(n, |i: int| byte)
}

/// Whether `tiny_skia` makes raster images of that size.
pub open spec fn is_pixmap_size(width: u32, height: u32) -> bool {
    0 < width && 0 < height && 4 * width <= i32::MAX
}

/// The first eight bytes of every PNG file.
pub open spec fn png_signature() -> Seq<u8> {
    seq![137u8, 80, 78, 71, 13, 10, 26, 10]
}

/// The number that four bytes spell, the highest one first.
pub open spec fn big_endian(bytes: Seq<u8>, at: int) -> int {
    bytes[at] * 0x100_0000 + bytes[at + 1] * 0x1_0000 + bytes[at + 2] * 0x100 + bytes[at + 3]
}

/// Whether some bytes begin as a PNG file of that size does.
pub open spec fn is_png_of_size(bytes: Seq<u8>, width: u32, height: u32) -> bool {
    &&& bytes.len() >= 24
    &&& bytes.take(8) == png_signature()
    &&& big_endian(bytes, 16) == width
    &&& big_endian(bytes, 20) == height
}

/// `tiny_skia::Pixmap::new`: an image of that size with every byte zero. There is none
/// without pixels, nor one whose rows take more than `i32::MAX` bytes.
#[verifier::external_body]
fn new_pixmap(width: u32, height: u32) -> (r: Option<Pixmap>)
    requires
        4 * width * height <= isize::MAX,
    ensures
        r is Some <==> is_pixmap_size(width, height),
        r matches Some(p) ==> pixmap_width(p) == width && pixmap_height(p) == height
            && pixmap_bytes(p) == repeated(0, (4 * width * height) as nat),
{
    Pixmap::new(width, height)
}

/// `tiny_skia::Pixmap::fill` with white: the image keeps its size, and every byte of it
/// becomes 255.
#[verifier::external_body]
fn fill_white(pixmap: &mut Pixmap)
    ensures
        pixmap_width(*final(pixmap)) == pixmap_width(*old(pixmap)),
        pixmap_height(*final(pixmap)) == pixmap_height(*old(pixmap)),
        pixmap_bytes(*final(pixmap)) == repeated(255, pixmap_bytes(*old(pixmap)).len()),
{
    pixmap.fill(Color::WHITE);
}

/// `tiny_skia::Pixmap::encode_png`: the PNG file depends on the image's size and bytes
/// alone. It begins with the PNG signature and a header chunk, whose data start with the
/// width and the height. What the compressed pixels after them are is left unsaid, and so
/// is when encoding fails.
#[verifier::external_body]
fn encode_pixmap(pixmap: &Pixmap) -> (r: Result<Vec<u8>, String>)
    ensures
        match r {
            Ok(v) => png_encoding(
                pixmap_width(*pixmap),
                pixmap_height(*pixmap),
                pixmap_bytes(*pixmap),
            ) == Ok::<Seq<u8>, Seq<char>>(v@) && is_png_of_size(
                v@,
                pixmap_width(*pixmap),
                pixmap_height(*pixmap),
            ),
            Err(e) => png_encoding(
                pixmap_width(*pixmap),
                pixmap_height(*pixmap),
                pixmap_bytes(*pixmap),
            ) == Err::<Seq<u8>, Seq<char>>(e@),
        },
{
    pixmap.encode_png().map_err(|e| e.to_string())
}

/// The white page for a picture.
pub fn blank_page<S>(picture: &Picture<S>) -> (r: Result<Pixmap, RenderError>)
    requires
        picture.width <= MAX_SIDE,
        picture.height <= MAX_SIDE,
    ensures
        match r {
            Ok(p) => {
                &&& 0 < picture.width && 0 < picture.height
                &&& pixmap_width(p) == picture.width
                &&& pixmap_height(p) == picture.height
                &&& pixmap_bytes(p) == repeated(
                    255,
                    (4 * picture.width * picture.height) as nat,
                )
            },
            Err(e) => (picture.width == 0 || picture.height == 0) && e.0@
                == "failed to create image"@,
        },
{
    proof {
        let (w, h) = (picture.width as int, picture.height as int);
        assert(4 * w * h <= 4 * 16_000 * 16_000) by (nonlinear_arith)
            requires
                0 <= w <= 16_000,
                0 <= h <= 16_000,
        ;
        assert(4 * w * h == 4 * picture.width * picture.height);
    }
    match new_pixmap(picture.width, picture.height) {
        Some(p) => {
            let mut p = p;
            fill_white(&mut p);
            Ok(p)
        },
        None => Err(RenderError("failed to create image".to_owned())),
    }
}

/// The result of encoding, with the message of an error put in words of this library.
pub open spec fn reported(outcome: Result<Seq<u8>, Seq<char>>) -> Result<Seq<u8>, Seq<char>> {
    match outcome {
        Ok(bytes) => Ok(bytes),
        Err(e) => Err("PNG encoding failed: "@ + e),
    }
}

/// Reports what came of encoding a page.
pub fn report_encoding(outcome: Result<Vec<u8>, String>) -> (r: Result<Vec<u8>, RenderError>)
    ensures
        match outcome {
            Ok(bytes) => r == Ok::<Vec<u8>, RenderError>(bytes),
            Err(e) => r matches Err(told) && told.0@ == "PNG encoding failed: "@ + e@,
        },
{
    match outcome {
        Ok(bytes) => Ok(bytes),
        Err(e) => {
            proof {
                reveal_strlit("");
                assert("PNG encoding failed: "@ + e@ + ""@ =~= "PNG encoding failed: "@ + e@);
            }
            Err(RenderError(joined("PNG encoding failed: ", e.as_str(), "")))
        },
    }
}

/// The PNG file for a page that has been drawn on.
pub fn encode_page(page: &Pixmap) -> (r: Result<Vec<u8>, RenderError>)
    ensures
        match r {
            Ok(bytes) => reported(
                png_encoding(pixmap_width(*page), pixmap_height(*page), pixmap_bytes(*page)),
            ) == Ok::<Seq<u8>, Seq<char>>(bytes@) && is_png_of_size(
                bytes@,
                pixmap_width(*page),
                pixmap_height(*page),
            ),
            Err(e) => reported(
                png_encoding(pixmap_width(*page), pixmap_height(*page), pixmap_bytes(*page)),
            ) == Err::<Seq<u8>, Seq<char>>(e.0@),
        },
{
    report_encoding(encode_pixmap(page))
}

} // verus!
