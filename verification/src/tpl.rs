//! TPL textures: recognising a texture file, finding the format of its
//! first image, and giving GX intensity textures (I4/I8) back the alpha
//! channel that a grayscale PNG export loses.
use vstd::prelude::*;
use crate::bytes::{be32_at, be_u32_at};
use crate::text::{
    chars_of, file_extension, lower_all, lower_chars, path_extension, push_str, safe_stem_spec, safe_stem_with,
};

verus! {

/// Magic number at the start of a TPL file.
pub const TPL_MAGIC: u32 = 0x0020AF30;

/// GX texture format I4 (4-bit intensity).
pub const GX_TF_I4: u32 = 0;

/// GX texture format I8 (8-bit intensity).
pub const GX_TF_I8: u32 = 1;

/// Textures thinner than this in either dimension are not upscaled.
pub const AI_UPSCALE_MIN_DIM: u32 = 8;

// ---------------------------------------------------------------------------
// The TPL header.
// ---------------------------------------------------------------------------

/// The texture format of the first image of a TPL file, when the header,
/// the image table entry and the image header are all inside the file.
pub open spec fn tpl_format_spec(tpl: Seq<u8>) -> Option<u32> {
    if tpl.len() < 0x0C || be32_at(tpl, 0) != TPL_MAGIC {
        None
    } else {
        let table = be32_at(tpl, 8);
        if table + 4 > tpl.len() {
            None
        } else {
            let img_hdr = be32_at(tpl, table);
            if img_hdr + 8 > tpl.len() {
                None
            } else {
                Some(be32_at(tpl, img_hdr + 4) as u32)
            }
        }
    }
}

/// Reads the texture format of the first image of a TPL file.
pub fn tpl_format(tpl: &[u8]) -> (r: Option<u32>)
    ensures
        r == tpl_format_spec(tpl@),
{
    let n = tpl.len() as u64;
    if n < 0x0C || be_u32_at(tpl, 0) != TPL_MAGIC {
        return None;
    }
    let table = be_u32_at(tpl, 8) as u64;
    if table + 4 > n {
        return None;
    }
    let img_hdr = be_u32_at(tpl, table as usize) as u64;
    if img_hdr + 8 > n {
        return None;
    }
    Some(be_u32_at(tpl, (img_hdr + 4) as usize))
}

/// The intensity depth (4 or 8) when `format` is an intensity format.
pub open spec fn intensity_bits_spec(format: Option<u32>) -> Option<u8> {
    match format {
        Some(f) => if f == GX_TF_I4 {
            Some(4u8)
        } else if f == GX_TF_I8 {
            Some(8u8)
        } else {
            None
        },
        None => None,
    }
}

/// The intensity depth (4 or 8) when the texture format is I4 or I8: such
/// textures need their alpha restored after export.
pub fn intensity_bits(format: Option<u32>) -> (r: Option<u8>)
    ensures
        r == intensity_bits_spec(format),
{
    match format {
        Some(f) => if f == GX_TF_I4 {
            Some(4)
        } else if f == GX_TF_I8 {
            Some(8)
        } else {
            None
        },
        None => None,
    }
}

// ---------------------------------------------------------------------------
// Paths.
// ---------------------------------------------------------------------------

/// Whether the path's extension is `tpl`, ignoring ASCII case.
pub open spec fn is_tpl_path_spec(path: Seq<char>) -> bool {
    let ext = match path_extension(path) {
        Some(e) => e,
        None => Seq::empty(),
    };
    lower_all(ext) == "tpl"@
}

/// Whether the path names a `.tpl` file (extension compared ignoring ASCII case).
pub fn is_tpl_path(path: &str) -> (r: bool)
    ensures
        r == is_tpl_path_spec(path@),
{
    proof {
        reveal_strlit("tpl");
    }
    let ext = match file_extension(path) {
        Some(e) => chars_of(e.as_str()),
        None => Vec::new(),
    };
    let lower = lower_chars(ext.as_slice());
    let want = chars_of("tpl");
    crate::text::chars_eq(lower.as_slice(), want.as_slice())
}

/// File name for the texture's PNG: its stem ("image" when it has none)
/// with characters outside `[A-Za-z0-9_-]` replaced by `_`.
pub fn safe_stem(path: &str) -> (r: String)
    ensures
        r@ == safe_stem_spec(path@, "image"@),
{
    safe_stem_with(path, "image")
}

/// The PNG file name for a texture: its safe stem and `.png`.
pub fn png_file_name(tpl_path: &str) -> (r: String)
    ensures
        r@ == safe_stem_spec(tpl_path@, "image"@) + ".png"@,
{
    let mut name = safe_stem(tpl_path);
    push_str(&mut name, ".png");
    name
}

/// Whether an image of these dimensions is a sliver (thinner than 8 pixels
/// in either dimension), which is kept at 1x.
pub fn is_sliver(dims: Option<(u32, u32)>) -> (r: bool)
    ensures
        r == (dims matches Some((w, h)) && (w < AI_UPSCALE_MIN_DIM || h < AI_UPSCALE_MIN_DIM)),
{
    match dims {
        Some((w, h)) => w < AI_UPSCALE_MIN_DIM || h < AI_UPSCALE_MIN_DIM,
        None => false,
    }
}

// ---------------------------------------------------------------------------
// Intensity alpha.
// ---------------------------------------------------------------------------

/// PNG color type: grayscale.
pub const COLOR_GRAYSCALE: u8 = 0;

/// PNG color type: RGB.
pub const COLOR_RGB: u8 = 2;

/// PNG color type: grayscale with alpha.
pub const COLOR_GRAYSCALE_ALPHA: u8 = 4;

/// PNG color type: RGBA.
pub const COLOR_RGBA: u8 = 6;

/// Bytes per pixel of an 8-bit image of color type `c`, for the color types
/// that are rewritten.
pub open spec fn stride(c: u8) -> int {
    if c == COLOR_GRAYSCALE {
        1
    } else if c == COLOR_GRAYSCALE_ALPHA {
        2
    } else if c == COLOR_RGB {
        3
    } else {
        4
    }
}

/// Whether pixels of color type `c` are rewritten.
pub open spec fn rewritten(c: u8) -> bool {
    c == COLOR_GRAYSCALE || c == COLOR_GRAYSCALE_ALPHA || c == COLOR_RGB || c == COLOR_RGBA
}

/// The RGBA pixel for one source pixel `p` of color type `c`: intensity
/// becomes color and alpha; with an alpha channel, the two are multiplied
/// (scaled to 0..255); RGB(A) keeps its color and takes red as alpha.
pub open spec fn rgba_pixel(c: u8, p: Seq<u8>) -> Seq<u8> {
    if c == COLOR_GRAYSCALE {
        seq![p[0], p[0], p[0], p[0]]
    } else if c == COLOR_GRAYSCALE_ALPHA {
        seq![p[0], p[0], p[0], ((p[0] * p[1]) / 255) as u8]
    } else {
        seq![p[0], p[1], p[2], p[0]]
    }
}

/// The RGBA image for the pixel bytes `px` of color type `c`; a trailing
/// partial pixel is dropped.
pub open spec fn rgba_of(c: u8, px: Seq<u8>) -> Seq<u8>
    decreases px.len(),
{
    if stride(c) <= px.len() {
        rgba_pixel(c, px.take(stride(c))) + rgba_of(c, px.skip(stride(c)))
    } else {
        Seq::empty()
    }
}

/// The rewritten pixels for an 8-bit image of color type `c`, or nothing
/// for a color type that is left as it is.
pub open spec fn intensity_rgba_spec(c: u8, px: Seq<u8>) -> Option<Seq<u8>> {
    if rewritten(c) {
        Some(rgba_of(c, px))
    } else {
        None
    }
}

/// Rewrites the 8-bit pixels `pixels` of PNG color type `color_type` as
/// RGBA in which alpha reproduces the intensity (what GX samples for I4/I8
/// textures); `None` for color types left as they are.
pub fn intensity_rgba(color_type: u8, pixels: &[u8]) -> (r: Option<Vec<u8>>)
    ensures
        match intensity_rgba_spec(color_type, pixels@) {
            Some(s) => r matches Some(v) && v@ == s,
            None => r is None,
        },
{
    if !(color_type == COLOR_GRAYSCALE || color_type == COLOR_GRAYSCALE_ALPHA || color_type == COLOR_RGB
        || color_type == COLOR_RGBA) {
        return None;
    }
    let step: usize = if color_type == COLOR_GRAYSCALE {
        1
    } else if color_type == COLOR_GRAYSCALE_ALPHA {
        2
    } else if color_type == COLOR_RGB {
        3
    } else {
        4
    };
    let n = pixels.len();
    let mut out: Vec<u8> = Vec::new();
    let mut pos: usize = 0;
    assert(pixels@.skip(0) =~= pixels@);
    while n - pos >= step
        invariant
            n == pixels@.len(),
            pos <= n,
            step == stride(color_type),
            rewritten(color_type),
            out@ + rgba_of(color_type, pixels@.skip(pos as int)) == rgba_of(color_type, pixels@),
        decreases n - pos,
    {
        let ghost rest = pixels@.skip(pos as int);
        let ghost before = out@;
        let p0 = pixels[pos];
        let quad: [u8; 4] = if color_type == COLOR_GRAYSCALE {
            [p0, p0, p0, p0]
        } else if color_type == COLOR_GRAYSCALE_ALPHA {
            let a = pixels[pos + 1];
            let w0 = p0 as u16;
            let wa = a as u16;
            assert(w0 * wa <= 65025) by (nonlinear_arith)
                requires
                    w0 <= 255,
                    wa <= 255,
            ;
            let prod = w0 * wa;
            assert(prod / 255 <= 255) by (nonlinear_arith)
                requires
                    prod <= 65025,
            ;
            let alpha = (prod / 255) as u8;
            [p0, p0, p0, alpha]
        } else {
            [p0, pixels[pos + 1], pixels[pos + 2], p0]
        };
        proof {
            assert(rest.take(step as int) =~= pixels@.subrange(pos as int, pos + step));
            assert(rest.skip(step as int) =~= pixels@.skip(pos + step));
            assert(quad@ =~= rgba_pixel(color_type, rest.take(step as int)));
        }
        out.push(quad[0]);
        out.push(quad[1]);
        out.push(quad[2]);
        out.push(quad[3]);
        proof {
            assert(out@ =~= before + quad@);
            assert(before + rgba_of(color_type, rest) =~= out@ + rgba_of(color_type, pixels@.skip(pos + step)));
        }
        pos = pos + step;
    }
    proof {
        assert(rgba_of(color_type, pixels@.skip(pos as int)) =~= Seq::<u8>::empty());
        assert(out@ + Seq::<u8>::empty() =~= out@);
    }
    Some(out)
}

/// Each source pixel gives four output bytes.
pub proof fn law_rgba_length(c: u8, px: Seq<u8>)
    requires
        rewritten(c),
    ensures
        rgba_of(c, px).len() == 4 * ((px.len() as int) / stride(c)),
    decreases px.len(),
{
    if stride(c) <= px.len() {
        law_rgba_length(c, px.skip(stride(c)));
        let l = px.len() as int;
        let d = stride(c);
        assert((l - d) / d == l / d - 1) by (nonlinear_arith)
            requires
                d <= l,
                d >= 1,
        ;
    } else {
        let l = px.len() as int;
        let d = stride(c);
        assert(l / d == 0) by (nonlinear_arith)
            requires
                0 <= l < d,
        ;
    }
}

/// A decoded PNG frame.
pub struct DecodedImage {
    pub width: u32,
    pub height: u32,
    /// The PNG color type code of the pixels (0 grayscale, 2 RGB,
    /// 3 indexed, 4 grayscale with alpha, 6 RGBA).
    pub color_type: u8,
    /// The pixel bytes, 8 bits per sample.
    pub pixels: Vec<u8>,
}

/// What decoding the PNG `bytes` to 8-bit samples gives: width, height,
/// color type code and pixel bytes.
pub uninterp spec fn png_frame(bytes: Seq<u8>) -> Option<(u32, u32, u8, Seq<u8>)>;

/// What `png` reads from the header of the PNG `bytes`: width and height.
pub uninterp spec fn png_size(bytes: Seq<u8>) -> Option<(u32, u32)>;

/// What encoding `rgba` as an 8-bit RGBA PNG of the given size gives.
pub uninterp spec fn png_rgba_encoding(width: u32, height: u32, rgba: Seq<u8>) -> Option<Seq<u8>>;

/// `png::Decoder` with `Transformations::normalize_to_color8()` (palette
/// and low bit depths expanded, 16-bit samples stripped to 8): reads the
/// header, then the first frame. The error text is not stated.
#[verifier::external_body]
fn decode_png(bytes: &[u8]) -> (r: Result<DecodedImage, String>)
    ensures
        r matches Ok(img) ==> png_frame(bytes@) == Some((img.width, img.height, img.color_type, img.pixels@)),
        r is Err ==> png_frame(bytes@) is None,
{
    let mut decoder = png::Decoder::new(bytes);
    decoder.set_transformations(png::Transformations::normalize_to_color8());
    let mut reader = decoder.read_info().map_err(|e| e.to_string())?;
    let mut pixels = vec![0u8; reader.output_buffer_size()];
    let info = reader.next_frame(&mut pixels).map_err(|e| e.to_string())?;
    pixels.truncate(info.buffer_size());
    Ok(DecodedImage { width: info.width, height: info.height, color_type: info.color_type as u8, pixels })
}

/// `png::Decoder::read_info`, then the width and height of the header.
#[verifier::external_body]
fn read_png_size(bytes: &[u8]) -> (r: Option<(u32, u32)>)
    ensures
        r == png_size(bytes@),
{
    let reader = png::Decoder::new(bytes).read_info().ok()?;
    Some((reader.info().width, reader.info().height))
}

/// `png::Encoder` for an 8-bit RGBA image: header, image data, end chunk.
/// The error text is not stated.
#[verifier::external_body]
fn encode_rgba_png(width: u32, height: u32, rgba: &[u8]) -> (r: Result<Vec<u8>, String>)
    ensures
        r matches Ok(v) ==> png_rgba_encoding(width, height, rgba@) == Some(v@),
        r is Err ==> png_rgba_encoding(width, height, rgba@) is None,
{
    let mut out: Vec<u8> = Vec::new();
    let mut encoder = png::Encoder::new(&mut out, width, height);
    encoder.set_color(png::ColorType::Rgba);
    encoder.set_depth(png::BitDepth::Eight);
    let mut writer = encoder.write_header().map_err(|e| e.to_string())?;
    writer.write_image_data(rgba).map_err(|e| e.to_string())?;
    writer.finish().map_err(|e| e.to_string())?;
    Ok(out)
}

/// Width and height from the header of the PNG `bytes`, without decoding
/// the image.
pub fn png_dimensions(bytes: &[u8]) -> (r: Option<(u32, u32)>)
    ensures
        r == png_size(bytes@),
{
    read_png_size(bytes)
}

/// What restoring the alpha of the PNG `bytes` gives: `None` when the
/// decoded color type is left as it is, else the re-encoded RGBA PNG.
pub open spec fn restore_spec(bytes: Seq<u8>) -> Option<Option<Seq<u8>>> {
    match png_frame(bytes) {
        None => None,
        Some((w, h, c, px)) => match intensity_rgba_spec(c, px) {
            None => Some(None),
            Some(rgba) => match png_rgba_encoding(w, h, rgba) {
                None => None,
                Some(out) => Some(Some(out)),
            },
        },
    }
}

/// Rewrites an exported intensity texture (a grayscale PNG that lost the
/// implicit alpha) as RGBA with alpha equal to intensity. `Ok(None)` when
/// the decoded color type is left as it is; an error when decoding or
/// encoding fails.
pub fn restore_intensity_alpha(png_bytes: &[u8]) -> (r: Result<Option<Vec<u8>>, String>)
    ensures
        match restore_spec(png_bytes@) {
            None => r is Err,
            Some(None) => r matches Ok(None),
            Some(Some(out)) => r matches Ok(Some(v)) && v@ == out,
        },
{
    let img = decode_png(png_bytes)?;
    match intensity_rgba(img.color_type, img.pixels.as_slice()) {
        None => Ok(None),
        Some(rgba) => {
            let out = encode_rgba_png(img.width, img.height, rgba.as_slice())?;
            Ok(Some(out))
        },
    }
}


/// The format is read through two pointers: the image table offset at 8,
/// the image header offset stored there, and the format word 4 bytes into
/// that header; a file without the TPL magic gives none.
pub proof fn law_tpl_format(tpl: Seq<u8>)
    ensures
        tpl_format_spec(tpl) matches Some(f) ==> {
            let table = be32_at(tpl, 8);
            let header = be32_at(tpl, table);
            &&& tpl.len() >= 12
            &&& be32_at(tpl, 0) == 0x0020AF30
            &&& table + 4 <= tpl.len()
            &&& header + 8 <= tpl.len()
            &&& f == be32_at(tpl, header + 4)
        },
        tpl.len() >= 12 && be32_at(tpl, 0) != 0x0020AF30 ==> tpl_format_spec(tpl) is None,
{
}

/// Pixel `k` of the output is the four bytes from `4k`, made from pixel
/// `k` of the input, the `stride` bytes from `stride * k`.
proof fn lemma_rgba_pixels(c: u8, px: Seq<u8>)
    requires
        rewritten(c),
    ensures
        rgba_of(c, px).len() == 4 * ((px.len() as int) / stride(c)),
        forall|k: int, j: int|
            0 <= k < (px.len() as int) / stride(c) && 0 <= j < 4 ==> #[trigger] rgba_of(c, px)[4 * k + j] == rgba_pixel(
                c,
                px.subrange(stride(c) * k, stride(c) * k + stride(c)),
            )[j],
    decreases px.len(),
{
    law_rgba_length(c, px);
    let s = stride(c);
    if s <= px.len() {
        let rest = px.skip(s);
        lemma_rgba_pixels(c, rest);
        let out = rgba_of(c, px);
        assert(out == rgba_pixel(c, px.take(s)) + rgba_of(c, rest));
        assert forall|k: int, j: int| 0 <= k < (px.len() as int) / s && 0 <= j < 4 implies #[trigger] out[4 * k + j]
            == rgba_pixel(c, px.subrange(s * k, s * k + s))[j] by {
            if k == 0 {
                assert(px.take(s) =~= px.subrange(0, s));
            } else {
                assert((rest.len() as int) / s == (px.len() as int) / s - 1) by (nonlinear_arith)
                    requires
                        rest.len() == px.len() - s,
                        s <= px.len(),
                        s >= 1,
                ;
                assert(s * (k - 1) + s == s * k && 0 <= s * (k - 1) && s * k + s <= px.len()) by (nonlinear_arith)
                    requires
                        1 <= k < (px.len() as int) / s,
                        s >= 1,
                ;
                assert(out[4 * k + j] == rgba_of(c, rest)[4 * (k - 1) + j]);
                assert(rest.subrange(s * (k - 1), s * (k - 1) + s) =~= px.subrange(s * k, s * k + s));
            }
        }
    }
}

/// Intensity becomes color and alpha: a grayscale pixel gives four equal
/// bytes; a grayscale-with-alpha pixel gives its gray three times and an
/// alpha that is the product of gray and alpha scaled to 0..255 (rounded
/// down); an RGB or RGBA pixel keeps red, green and blue and takes red as
/// alpha.
pub proof fn law_intensity_pixels(c: u8, px: Seq<u8>)
    requires
        rewritten(c),
    ensures
        ({
            let out = rgba_of(c, px);
            let n = (px.len() as int) / stride(c);
            &&& out.len() == 4 * n
            &&& c == COLOR_GRAYSCALE ==> forall|k: int|
                0 <= k < n ==> #[trigger] out[4 * k] == px[k] && out[4 * k + 1] == px[k] && out[4 * k + 2] == px[k]
                    && out[4 * k + 3] == px[k]
            &&& c == COLOR_GRAYSCALE_ALPHA ==> forall|k: int|
                0 <= k < n ==> #[trigger] out[4 * k] == px[2 * k] && out[4 * k + 1] == px[2 * k] && out[4 * k + 2]
                    == px[2 * k] && out[4 * k + 3] * 255 <= px[2 * k] * px[2 * k + 1] < (out[4 * k + 3] + 1) * 255
            &&& c == COLOR_RGB ==> forall|k: int|
                0 <= k < n ==> #[trigger] out[4 * k] == px[3 * k] && out[4 * k + 1] == px[3 * k + 1] && out[4 * k + 2]
                    == px[3 * k + 2] && out[4 * k + 3] == px[3 * k]
            &&& c == COLOR_RGBA ==> forall|k: int|
                0 <= k < n ==> #[trigger] out[4 * k] == px[4 * k] && out[4 * k + 1] == px[4 * k + 1] && out[4 * k + 2]
                    == px[4 * k + 2] && out[4 * k + 3] == px[4 * k]
        }),
{
    lemma_rgba_pixels(c, px);
    let out = rgba_of(c, px);
    let s = stride(c);
    let n = (px.len() as int) / s;
    assert forall|k: int| #![trigger out[4 * k]] 0 <= k < n implies {
        let p = px.subrange(s * k, s * k + s);
        &&& 0 <= s * k
        &&& s * k + s <= px.len()
        &&& out[4 * k] == rgba_pixel(c, p)[0]
        &&& out[4 * k + 1] == rgba_pixel(c, p)[1]
        &&& out[4 * k + 2] == rgba_pixel(c, p)[2]
        &&& out[4 * k + 3] == rgba_pixel(c, p)[3]
    } by {
        assert(0 <= s * k && s * k + s <= px.len()) by (nonlinear_arith)
            requires
                0 <= k < (px.len() as int) / s,
                s >= 1,
        ;
        assert(out[4 * k + 0] == out[4 * k]);
    }
    if c == COLOR_GRAYSCALE_ALPHA {
        assert forall|k: int| 0 <= k < n implies #[trigger] out[4 * k] == px[2 * k] && out[4 * k + 1] == px[2 * k]
            && out[4 * k + 2] == px[2 * k] && out[4 * k + 3] * 255 <= px[2 * k] * px[2 * k + 1] < (out[4 * k + 3]
            + 1) * 255 by {
            let p = px.subrange(2 * k, 2 * k + 2);
            assert(p[0] == px[2 * k] && p[1] == px[2 * k + 1]);
            let g = px[2 * k] as int;
            let a = px[2 * k + 1] as int;
            let q = (g * a) / 255;
            assert(0 <= g * a <= 65025) by (nonlinear_arith)
                requires
                    0 <= g <= 255,
                    0 <= a <= 255,
            ;
            assert(q * 255 <= g * a < (q + 1) * 255) by (nonlinear_arith)
                requires
                    q == (g * a) / 255,
                    0 <= g * a,
            ;
            assert(0 <= q <= 255) by (nonlinear_arith)
                requires
                    q == (g * a) / 255,
                    0 <= g * a <= 65025,
            ;
            assert(out[4 * k + 3] == q);
        }
    } else if c == COLOR_GRAYSCALE {
        assert forall|k: int| 0 <= k < n implies #[trigger] out[4 * k] == px[k] && out[4 * k + 1] == px[k] && out[4
            * k + 2] == px[k] && out[4 * k + 3] == px[k] by {
            assert(px.subrange(k, k + 1)[0] == px[k]);
        }
    } else if c == COLOR_RGB {
        assert forall|k: int| 0 <= k < n implies #[trigger] out[4 * k] == px[3 * k] && out[4 * k + 1] == px[3 * k + 1]
            && out[4 * k + 2] == px[3 * k + 2] && out[4 * k + 3] == px[3 * k] by {
            let p = px.subrange(3 * k, 3 * k + 3);
            assert(p[0] == px[3 * k] && p[1] == px[3 * k + 1] && p[2] == px[3 * k + 2]);
        }
    } else {
        assert forall|k: int| 0 <= k < n implies #[trigger] out[4 * k] == px[4 * k] && out[4 * k + 1] == px[4 * k + 1]
            && out[4 * k + 2] == px[4 * k + 2] && out[4 * k + 3] == px[4 * k] by {
            let p = px.subrange(4 * k, 4 * k + 4);
            assert(p[0] == px[4 * k] && p[1] == px[4 * k + 1] && p[2] == px[4 * k + 2]);
        }
    }
}

} // verus!
