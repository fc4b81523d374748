use vstd::prelude::*;

verus! {

/// Longest edge of a thumbnail, in pixels.
pub const THUMBNAIL_MAX: u32 = 128;

/// A decoded bitmap in 8-bit RGBA with straight alpha: four bytes per
/// pixel, row by row.
pub struct Bitmap {
    pub width: u32,
    pub height: u32,
    pub pixels: Vec<u8>,
}

impl Bitmap {
    /// The buffer length agrees with the dimensions.
    pub open spec fn wf(self) -> bool {
        self.pixels@.len() == 4 * self.width * self.height
    }
}

/// Whether `image::load_from_memory` decodes these bytes; a function of
/// the bytes alone.
pub uninterp spec fn decode_ok(bytes: Seq<u8>) -> bool;

/// Whether the bytes decode to an image natively carried in 8-bit RGBA,
/// the only layout the clipboard export accepts; a function of the bytes
/// alone.
pub uninterp spec fn rgba8_native(bytes: Seq<u8>) -> bool;

/// Relies on image::load_from_memory, DynamicImage::thumbnail and
/// DynamicImage::to_rgba8: decodes the bytes, scales them to fit within
/// `max_w` by `max_h` preserving the aspect ratio, and converts to 8-bit
/// RGBA. The call succeeds exactly when the bytes decode; the buffer
/// holds four bytes per pixel and neither edge passes its bound.
#[verifier::external_body]
fn decode_and_shrink(bytes: &Vec<u8>, max_w: u32, max_h: u32) -> (r: Option<Bitmap>)
    requires
        1 <= max_w,
        1 <= max_h,
    ensures
        r is Some <==> decode_ok(bytes@),
        r matches Some(b) ==> b.wf() && b.width <= max_w && b.height <= max_h,
{
    match image::load_from_memory(bytes.as_slice()) {
        Ok(img) => {
            let rgba = img.thumbnail(max_w, max_h).to_rgba8();
            let (width, height) = rgba.dimensions();
            Some(Bitmap { width, height, pixels: rgba.into_raw() })
        },
        Err(_) => None,
    }
}

/// Relies on image::load_from_memory and DynamicImage::to_rgba8: decodes
/// the bytes at full size and converts to 8-bit RGBA. The call succeeds
/// exactly when the bytes decode; the buffer holds four bytes per pixel.
#[verifier::external_body]
fn decode_full(bytes: &Vec<u8>) -> (r: Option<Bitmap>)
    ensures
        r is Some <==> decode_ok(bytes@),
        r matches Some(b) ==> b.wf(),
{
    match image::load_from_memory(bytes.as_slice()) {
        Ok(img) => {
            let rgba = img.to_rgba8();
            let (width, height) = rgba.dimensions();
            Some(Bitmap { width, height, pixels: rgba.into_raw() })
        },
        Err(_) => None,
    }
}

/// Relies on image::load_from_memory and DynamicImage::as_rgba8: decodes
/// the bytes at full size and hands the pixel buffer out only when the
/// decoded image is natively 8-bit RGBA. The call succeeds exactly when
/// the bytes decode to that layout; the buffer holds four bytes per pixel.
#[verifier::external_body]
fn decode_native_rgba(bytes: &Vec<u8>) -> (r: Option<Bitmap>)
    ensures
        r is Some <==> (decode_ok(bytes@) && rgba8_native(bytes@)),
        r matches Some(b) ==> b.wf(),
{
    match image::load_from_memory(bytes.as_slice()) {
        Ok(img) => match img.as_rgba8() {
            Some(rgba) => Some(
                Bitmap {
                    width: rgba.width(),
                    height: rgba.height(),
                    pixels: rgba.as_raw().clone(),
                },
            ),
            None => None,
        },
        Err(_) => None,
    }
}

/// The decode task body, minus the file reading the host performs: turns
/// the bytes read from disk into a thumbnail no larger than
/// `THUMBNAIL_MAX` on either axis, or nothing when the bytes do not
/// decode. Absence of a result is the failure signal; nothing is thrown.
pub fn decode_thumbnail(bytes: &Vec<u8>) -> (r: Option<Bitmap>)
    ensures
        r is Some <==> decode_ok(bytes@),
        r matches Some(b) ==> b.wf() && b.width <= THUMBNAIL_MAX && b.height <= THUMBNAIL_MAX,
{
    decode_and_shrink(bytes, THUMBNAIL_MAX, THUMBNAIL_MAX)
}

/// The full-resolution pixels handed to the platform clipboard for one
/// image, independent of the thumbnail cache; nothing when the bytes do
/// not decode to native 8-bit RGBA.
pub fn clipboard_bitmap(bytes: &Vec<u8>) -> (r: Option<Bitmap>)
    ensures
        r is Some <==> (decode_ok(bytes@) && rgba8_native(bytes@)),
        r matches Some(b) ==> b.wf(),
{
    decode_native_rgba(bytes)
}

/// The window icon: the decoded image where icon bytes were read and
/// decode, else a single transparent pixel.
pub fn icon_bitmap(bytes: Option<Vec<u8>>) -> (r: Bitmap)
    ensures
        r.wf(),
        (match bytes {
            Some(b) => !decode_ok(b@),
            None => true,
        }) ==> r.width == 1 && r.height == 1 && r.pixels@ == seq![0u8, 0u8, 0u8, 0u8],
{
    let decoded = match bytes {
        Some(b) => decode_full(&b),
        None => None,
    };
    match decoded {
        Some(bm) => bm,
        None => {
            let mut pixels: Vec<u8> = Vec::new();
            pixels.push(0u8);
            pixels.push(0u8);
            pixels.push(0u8);
            pixels.push(0u8);
            proof {
                assert(pixels@ =~= seq![0u8, 0u8, 0u8, 0u8]);
            }
            Bitmap { width: 1, height: 1, pixels }
        },
    }
}

} // verus!
