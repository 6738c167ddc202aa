//! Screen capture support: regions, pixel conversion and PNG encoding.
//!
//! Capturing a region of the screen yields BGRA pixel rows, possibly padded;
//! `bgra_to_rgba` repacks them into tight RGBA data and `encode_png` turns
//! that into a PNG byte stream. Talking to the display server and the
//! clipboard is the host application's concern.

use vstd::prelude::*;

verus! {

/// What can go wrong while capturing or processing a screenshot.
#[derive(Debug)]
pub enum ScreenshotError {
    /// Screen capture failed.
    CaptureFailed(String),
    /// Image processing failed.
    ProcessingFailed(String),
    /// Clipboard operation failed.
    ClipboardFailed(String),
}

impl ScreenshotError {
    /// A human-readable description of the failure.
    pub fn message(&self) -> (r: String)
        ensures
            (match self {
                ScreenshotError::CaptureFailed(m) => r@ == "Screen capture failed: "@ + m@,
                ScreenshotError::ProcessingFailed(m) => r@ == "Image processing failed: "@ + m@,
                ScreenshotError::ClipboardFailed(m) => r@ == "Clipboard operation failed: "@ + m@,
            }),
    {
        match self {
            ScreenshotError::CaptureFailed(m) => {
                let mut s = "Screen capture failed: ".to_owned();
                s.append(m.as_str());
                s
            },
            ScreenshotError::ProcessingFailed(m) => {
                let mut s = "Image processing failed: ".to_owned();
                s.append(m.as_str());
                s
            },
            ScreenshotError::ClipboardFailed(m) => {
                let mut s = "Clipboard operation failed: ".to_owned();
                s.append(m.as_str());
                s
            },
        }
    }
}

/// Result type for screenshot operations.
pub type ScreenshotResult<T> = Result<T, ScreenshotError>;

/// A rectangular screen region.
#[derive(Debug, Clone, Copy)]
pub struct ScreenRect {
    pub x: i32,
    pub y: i32,
    pub width: u32,
    pub height: u32,
}

impl ScreenRect {
    /// A new screen rectangle.
    pub fn new(x: i32, y: i32, width: u32, height: u32) -> (r: ScreenRect)
        ensures
            r.x == x,
            r.y == y,
            r.width == width,
            r.height == height,
    {
        ScreenRect { x, y, width, height }
    }
}

/// The byte offset of a pixel in padded rows of `bpr` bytes.
pub open spec fn pixel_offset(width: int, bpr: int, p: int) -> int {
    (p / width) * bpr + (p % width) * 4
}

/// The RGBA bytes of the first `n` pixels: each in-range BGRA quadruple is
/// swizzled to RGBA, and a pixel whose bytes run past the data is skipped.
pub open spec fn rgba_prefix(data: Seq<u8>, width: int, bpr: int, n: int) -> Seq<u8>
    decreases n,
{
    if n <= 0 || width <= 0 {
        Seq::<u8>::empty()
    } else {
        let off = pixel_offset(width, bpr, n - 1);
        rgba_prefix(data, width, bpr, n - 1) + if off + 3 < data.len() as int {
            seq![data[off + 2], data[off + 1], data[off], data[off + 3]]
        } else {
            Seq::<u8>::empty()
        }
    }
}

/// Repack padded BGRA pixel rows into tight RGBA data, skipping pixels
/// whose bytes run past the data.
pub fn bgra_to_rgba(data: &Vec<u8>, width: u32, height: u32, bytes_per_row: usize) -> (out: Vec<
    u8,
>)
    requires
        (height as int) * (bytes_per_row as int) + 4 * (width as int) <= usize::MAX as int,
    ensures
        out@ == rgba_prefix(
            data@,
            width as int,
            bytes_per_row as int,
            (width as int) * (height as int),
        ),
{
    let ghost w = width as int;
    let ghost bpr = bytes_per_row as int;
    let mut out: Vec<u8> = Vec::new();
    if width == 0 {
        proof {
            assert(out@ =~= rgba_prefix(data@, w, bpr, w * (height as int)));
        }
        return out;
    }
    let mut y: u32 = 0;
    while y < height
        invariant
            y <= height,
            width >= 1,
            w == width as int,
            bpr == bytes_per_row as int,
            (height as int) * bpr + 4 * w <= usize::MAX as int,
            out@ == rgba_prefix(data@, w, bpr, w * (y as int)),
        decreases height - y,
    {
        let mut x: u32 = 0;
        proof {
            assert((y as int) * bpr <= (height as int) * bpr) by (nonlinear_arith)
                requires
                    0 <= y as int <= height as int,
                    bpr >= 0,
            ;
        }
        while x < width
            invariant
                x <= width,
                y < height,
                width >= 1,
                w == width as int,
                bpr == bytes_per_row as int,
                (height as int) * bpr + 4 * w <= usize::MAX as int,
                (y as int) * bpr <= (height as int) * bpr,
                out@ == rgba_prefix(data@, w, bpr, w * (y as int) + x as int),
            decreases width - x,
        {
            let ghost p = w * (y as int) + x as int;
            proof {
                assert(p / w == y as int && p % w == x as int) by (nonlinear_arith)
                    requires
                        w >= 1,
                        0 <= (x as int) && (x as int) < w,
                        0 <= (y as int),
                        p == w * (y as int) + (x as int),
                ;
                assert(pixel_offset(w, bpr, p) == (y as int) * bpr + (x as int) * 4);
            }
            let offset: usize = (y as usize) * bytes_per_row + (x as usize) * 4;
            if offset + 3 < data.len() {
                let b = data[offset];
                let g = data[offset + 1];
                let r = data[offset + 2];
                let a = data[offset + 3];
                out.push(r);
                out.push(g);
                out.push(b);
                out.push(a);
                proof {
                    assert(out@ =~= rgba_prefix(data@, w, bpr, p + 1));
                }
            } else {
                proof {
                    assert(out@ =~= rgba_prefix(data@, w, bpr, p + 1));
                }
            }
            x += 1;
        }
        proof {
            assert(w * (y as int) + w == w * (y as int + 1)) by (nonlinear_arith);
        }
        y += 1;
    }
    proof {
        assert(w * (height as int) == w * (height as int));
    }
    out
}

/// The PNG stream that the encoder produces for tight RGBA pixel data of
/// the given dimensions.
pub uninterp spec fn png_of(width: int, height: int, rgba: Seq<u8>) -> Seq<u8>;

/// Relies on `image::RgbaImage::from_raw` and `ImageBuffer::write_to` with
/// the PNG format: `from_raw` accepts a buffer of exactly `4 * width *
/// height` bytes, the encoder's output depends only on the dimensions and
/// the pixel data, and a PNG stream begins with the eight-byte PNG
/// signature, whose first four bytes are 137, 80, 78, 71.
#[verifier::external_body]
fn encode_png_raw(width: u32, height: u32, rgba: Vec<u8>) -> (r: Result<Vec<u8>, String>)
    requires
        rgba@.len() == 4 * (width as int) * (height as int),
    ensures
        (r matches Ok(b) ==> b@ == png_of(width as int, height as int, rgba@) && b@.len() >= 8
            && b@[0] == 137 && b@[1] == 80 && b@[2] == 78 && b@[3] == 71),
{
    let image = match image::RgbaImage::from_raw(width, height, rgba) {
        Some(img) => img,
        None => {
            return Err("pixel buffer does not match the dimensions".to_string());
        },
    };
    let mut cursor = std::io::Cursor::new(Vec::new());
    match image.write_to(&mut cursor, image::ImageFormat::Png) {
        Ok(()) => Ok(cursor.into_inner()),
        Err(e) => Err(format!("PNG encoding failed: {}", e)),
    }
}

/// Encode tight RGBA pixel data as a PNG byte stream.
pub fn encode_png(width: u32, height: u32, rgba: Vec<u8>) -> (r: ScreenshotResult<Vec<u8>>)
    requires
        rgba@.len() == 4 * (width as int) * (height as int),
    ensures
        (r matches Ok(b) ==> b@ == png_of(width as int, height as int, rgba@) && b@.len() >= 8
            && b@[0] == 137 && b@[1] == 80 && b@[2] == 78 && b@[3] == 71),
        (r matches Err(e) ==> e is ProcessingFailed),
{
    match encode_png_raw(width, height, rgba) {
        Ok(b) => Ok(b),
        Err(msg) => Err(ScreenshotError::ProcessingFailed(msg)),
    }
}

} // verus!
