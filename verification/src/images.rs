//! Images: from the streams of a document to JPEG and PNG files.

use crate::bytes::spells;
use crate::document::{get_object, object_at};
use crate::filters::{decode_filters_for_jpeg, jpeg_data, jpeg_filters};
use crate::geometry::Matrix;
use crate::object::{entry, integer_entry, object_views, ObjectId, ObjectView, PdfDict, PdfObject, PdfStream};
use crate::png_rows::{bytes_per_pixel, image_rows, min_int, unfilter_png_rows};
use crate::single::{single_of_int, Single, BYTE_MAX, ONE};
use crate::streams::{unpredicted, unpredicted_content};
use vstd::prelude::*;
use vstd::utf8::encode_utf8;

verus! {

/// The file format of an extracted image.
#[derive(Clone, Copy, Debug, PartialEq, Eq, Structural)]
pub enum ImageFormat {
    Jpeg,
    Png,
}

/// An image of a page: a file, its size in pixels and its place.
pub struct ExtractedImage {
    pub page: u32,
    pub x: Single,
    pub y: Single,
    pub width: u32,
    pub height: u32,
    pub format: ImageFormat,
    pub data: Vec<u8>,
}

/// The color types of PNG that are written.
#[derive(Clone, Copy, Debug, PartialEq, Eq, Structural)]
pub enum PngColorType {
    Grayscale,
    Rgb,
}

/// The bit depths of PNG.
#[derive(Clone, Copy, Debug, PartialEq, Eq, Structural)]
pub enum PngBitDepth {
    One,
    Two,
    Four,
    Eight,
    Sixteen,
}

/// The color space of an image: what it is written as, and the channels that its
/// data have.
#[derive(Clone, Copy, Debug, PartialEq, Eq, Structural)]
pub struct ImageColorInfo {
    pub png_color_type: PngColorType,
    pub channels: u8,
    pub is_cmyk: bool,
}

/// The name that names a color space: itself, or first in an array.
pub open spec fn color_space_name(dict: Seq<(Seq<u8>, ObjectView)>) -> Option<Seq<u8>> {
    match entry(dict, "ColorSpace"@) {
        Some(ObjectView::Name(n)) => Some(n),
        Some(ObjectView::Array(a)) => if a.len() > 0 {
            match a[0] {
                ObjectView::Name(n) => Some(n),
                _ => None,
            }
        } else {
            None
        },
        _ => None,
    }
}

pub open spec fn rgb_info() -> ImageColorInfo {
    ImageColorInfo { png_color_type: PngColorType::Rgb, channels: 3, is_cmyk: false }
}

/// The color spaces that can be written: RGB, gray, CMYK, ICC profiles, which are
/// taken for RGB, and RGB where none is named. Others, indexed ones among them,
/// cannot.
pub open spec fn color_space(dict: Seq<(Seq<u8>, ObjectView)>) -> Option<ImageColorInfo> {
    match color_space_name(dict) {
        None => Some(rgb_info()),
        Some(n) => if n == encode_utf8("DeviceRGB"@) || n == encode_utf8("CalRGB"@) || n
            == encode_utf8("ICCBased"@) {
            Some(rgb_info())
        } else if n == encode_utf8("DeviceGray"@) || n == encode_utf8("CalGray"@) {
            Some(
                ImageColorInfo {
                    png_color_type: PngColorType::Grayscale,
                    channels: 1,
                    is_cmyk: false,
                },
            )
        } else if n == encode_utf8("DeviceCMYK"@) {
            Some(ImageColorInfo { png_color_type: PngColorType::Rgb, channels: 4, is_cmyk: true })
        } else {
            None
        },
    }
}

/// The color space of an image; `None` where it is not supported.
pub fn resolve_color_space(dict: &PdfDict) -> (r: Option<ImageColorInfo>)
    ensures
        r == color_space(dict@),
{
    let name: Option<&Vec<u8>> = match dict.get("ColorSpace") {
        Some(PdfObject::Name(n)) => Some(n),
        Some(PdfObject::Array(a)) => {
            assert(object_views(a@) =~= PdfObject::Array(*a)@->Array_0);
            if a.len() > 0 {
                match &a[0] {
                    PdfObject::Name(n) => Some(n),
                    _ => None,
                }
            } else {
                None
            }
        },
        _ => None,
    };
    let rgb = ImageColorInfo { png_color_type: PngColorType::Rgb, channels: 3, is_cmyk: false };
    match name {
        None => Some(rgb),
        Some(n) => {
            if spells(n.as_slice(), "DeviceRGB") || spells(n.as_slice(), "CalRGB") || spells(
                n.as_slice(),
                "ICCBased",
            ) {
                Some(rgb)
            } else if spells(n.as_slice(), "DeviceGray") || spells(n.as_slice(), "CalGray") {
                Some(
                    ImageColorInfo {
                        png_color_type: PngColorType::Grayscale,
                        channels: 1,
                        is_cmyk: false,
                    },
                )
            } else if spells(n.as_slice(), "DeviceCMYK") {
                Some(
                    ImageColorInfo {
                        png_color_type: PngColorType::Rgb,
                        channels: 4,
                        is_cmyk: true,
                    },
                )
            } else {
                None
            }
        },
    }
}

/// `1 - b / 255`
pub open spec fn inverted(b: u8) -> Single {
    Single { bits: ONE }.minus(single_of_int(b as int).over(Single { bits: BYTE_MAX }))
}

/// A channel of RGB from one of CMY and the black: `255 * (1 - c) * (1 - k)`, in
/// single precision, cut to an integer.
pub open spec fn rgb_channel(c: u8, k: u8) -> u8 {
    Single { bits: BYTE_MAX }.times(inverted(c)).times(inverted(k)).integer_part(0, 255) as u8
}

/// The RGB pixels of `n` CMYK pixels.
pub open spec fn rgb_pixels(data: Seq<u8>, n: nat) -> Seq<u8> {
    Seq::new(3 * n, |i: int| rgb_channel(data[i / 3 * 4 + i % 3], data[i / 3 * 4 + 3]))
}

/// The whole pixels of four bytes in some data, of at most `width` times `height`.
pub open spec fn cmyk_pixel_count(len: nat, width: u32, height: u32) -> nat {
    min_int(width * height, len as int / 4) as nat
}

fn invert(b: u8) -> (r: Single)
    ensures
        r == inverted(b),
{
    Single::from_bits(ONE).sub(Single::from_u64(b as u64).div(Single::from_bits(BYTE_MAX)))
}

fn to_rgb_channel(c: Single, k: Single) -> (r: u8)
    ensures
        r == Single::from_bits(BYTE_MAX).times(c).times(k).integer_part(0, 255),
{
    Single::from_bits(BYTE_MAX).mul(c).mul(k).to_u8()
}

/// Converts CMYK pixels to RGB by R = 255 (1-C) (1-K), and G and B likewise.
///
/// Of `width` times `height` pixels, those that the data do not reach are left
/// out.
pub fn cmyk_to_rgb(data: &[u8], width: u32, height: u32) -> (rgb: Vec<u8>)
    ensures
        rgb@ == rgb_pixels(data@, cmyk_pixel_count(data@.len(), width, height)),
{
    let mut inverses: Vec<Single> = Vec::new();
    let mut b: u16 = 0;
    while b < 256
        invariant
            b <= 256,
            inverses@.len() == b,
            forall|j: int| 0 <= j < b ==> inverses@[j] == inverted(j as u8),
        decreases 256 - b,
    {
        inverses.push(invert(b as u8));
        b = b + 1;
    }
    assert(width * height < 0x1_0000_0000 * 0x1_0000_0000) by (nonlinear_arith)
        requires
            width < 0x1_0000_0000,
            height < 0x1_0000_0000,
    ;
    let area: u64 = width as u64 * height as u64;
    let len: usize = data.len();
    let whole: usize = len / 4;
    let n: usize = if area < whole as u64 { area as usize } else { whole };
    let mut rgb: Vec<u8> = Vec::new();
    let mut i: usize = 0;
    while i < n
        invariant
            data@.len() == len,
            i <= n <= len / 4,
            inverses@.len() == 256,
            forall|j: int| 0 <= j < 256 ==> inverses@[j] == inverted(j as u8),
            rgb@ =~= rgb_pixels(data@, i as nat),
        decreases n - i,
    {
        let c: u8 = data[4 * i];
        let m: u8 = data[4 * i + 1];
        let y: u8 = data[4 * i + 2];
        let k: u8 = data[4 * i + 3];
        rgb.push(to_rgb_channel(inverses[c as usize], inverses[k as usize]));
        rgb.push(to_rgb_channel(inverses[m as usize], inverses[k as usize]));
        rgb.push(to_rgb_channel(inverses[y as usize], inverses[k as usize]));
        i = i + 1;
    }
    rgb
}

/// What a PNG file holds: its size, how its samples are stored, and its rows of
/// pixels one after the other.
pub struct PngImage {
    pub width: u32,
    pub height: u32,
    pub color: PngColorType,
    pub depth: PngBitDepth,
    pub pixels: Seq<u8>,
}

/// The image that a PNG file holds, as decoding it gives it.
pub uninterp spec fn png_image(file: Seq<u8>) -> Option<PngImage>;

pub open spec fn samples(color: PngColorType) -> int {
    match color {
        PngColorType::Grayscale => 1,
        PngColorType::Rgb => 3,
    }
}

pub open spec fn depth_bits(depth: PngBitDepth) -> int {
    match depth {
        PngBitDepth::One => 1,
        PngBitDepth::Two => 2,
        PngBitDepth::Four => 4,
        PngBitDepth::Eight => 8,
        PngBitDepth::Sixteen => 16,
    }
}

/// The bytes that `bits` bits take.
pub open spec fn bytes_for(bits: int) -> int {
    (bits + 7) / 8
}

/// The bytes of the pixels of an image, each row on its own.
pub open spec fn png_size(width: u32, height: u32, color: PngColorType, depth: PngBitDepth) -> int {
    bytes_for(width * samples(color) * depth_bits(depth)) * height
}

/// Whether PNG has files with these parameters: at least one pixel, and RGB only
/// with 8 or 16 bits.
pub open spec fn png_exists(width: u32, height: u32, color: PngColorType, depth: PngBitDepth) -> bool {
    width > 0 && height > 0 && (color == PngColorType::Rgb ==> depth_bits(depth) >= 8)
}

/// The eight bytes that start every PNG file.
pub open spec fn png_signature() -> Seq<u8> {
    seq![137u8, 80, 78, 71, 13, 10, 26, 10]
}

/// Writes a PNG file with `png::Encoder`: its header, then all pixels
/// (`write_header`, `write_image_data`).
///
/// Claimed: it fails exactly where there is no such file; else the result starts
/// with the signature, and decoding it gives the same image. How the pixels are
/// compressed is left open.
#[verifier::external_body]
pub(crate) fn encode_png(
    width: u32,
    height: u32,
    color: PngColorType,
    depth: PngBitDepth,
    pixels: &Vec<u8>,
) -> (r: Option<Vec<u8>>)
    requires
        pixels@.len() == png_size(width, height, color, depth),
    ensures
        r is Some <==> png_exists(width, height, color, depth),
        r matches Some(file) ==> png_signature().is_prefix_of(file@),
        r matches Some(file) ==> png_image(file@) == Some(
            (PngImage { width, height, color, depth, pixels: pixels@ }),
        ),
{
    let mut file: Vec<u8> = Vec::new();
    let mut encoder = png::Encoder::new(&mut file, width, height);
    encoder.set_color(match color { PngColorType::Grayscale => png::ColorType::Grayscale, PngColorType::Rgb => png::ColorType::Rgb });
    encoder.set_depth(match depth {
        PngBitDepth::One => png::BitDepth::One,
        PngBitDepth::Two => png::BitDepth::Two,
        PngBitDepth::Four => png::BitDepth::Four,
        PngBitDepth::Eight => png::BitDepth::Eight,
        PngBitDepth::Sixteen => png::BitDepth::Sixteen,
    });
    let mut writer = encoder.write_header().ok()?;
    writer.write_image_data(pixels).ok()?;
    drop(writer);
    Some(file)
}

/// The low 32 bits of an integer.
pub open spec fn low_32(n: i64) -> u32 {
    (n as int % 0x1_0000_0000) as u32
}

/// The low 8 bits of an integer.
pub open spec fn low_8(n: i64) -> u8 {
    (n as int % 0x100) as u8
}

fn cut_32(n: i64) -> (r: u32)
    ensures
        r == low_32(n),
{
    let r: u32 = n as u32;
    assert(n as u32 as i64 == n % 0x1_0000_0000) by (bit_vector);
    r
}

fn cut_8(n: i64) -> (r: u8)
    ensures
        r == low_8(n),
{
    let r: u8 = n as u8;
    assert(n as u8 as i64 == n % 0x100) by (bit_vector);
    r
}

/// The bits per component of an image, 8 where none are given.
pub open spec fn bits_per_component(dict: Seq<(Seq<u8>, ObjectView)>) -> u8 {
    match integer_entry(dict, "BitsPerComponent"@) {
        Some(n) => low_8(n),
        None => 8,
    }
}

/// Whether the rows of an image start with PNG filter types: its predictor is 10 or
/// more.
pub open spec fn has_png_predictor(dict: Seq<(Seq<u8>, ObjectView)>) -> bool {
    match entry(dict, "DecodeParms"@) {
        Some(ObjectView::Dictionary(d)) => match integer_entry(d, "Predictor"@) {
            Some(p) => p >= 10,
            None => false,
        },
        _ => false,
    }
}

/// The rows of an image in its own color space, out of the decoded stream, the
/// filters of a PNG predictor undone; `None` where they are not all there.
pub open spec fn image_pixels(
    dict: Seq<(Seq<u8>, ObjectView)>,
    raw: Seq<u8>,
    width: u32,
    height: u32,
    channels: u8,
) -> Option<Seq<u8>> {
    let bpc = bits_per_component(dict);
    let row = bytes_for(width * channels * bpc);
    if has_png_predictor(dict) {
        if raw.len() < (row + 1) * height {
            None
        } else {
            Some(
                image_rows(
                    raw,
                    height as nat,
                    row as nat,
                    bytes_per_pixel(channels as int, bpc as int),
                ),
            )
        }
    } else {
        if raw.len() < row * height {
            None
        } else {
            Some(raw.take(row * height))
        }
    }
}

/// The depth that an image is written with: its bits per component, and 8 where
/// PNG has no such depth.
pub open spec fn png_depth(bpc: u8) -> PngBitDepth {
    if bpc == 1 {
        PngBitDepth::One
    } else if bpc == 2 {
        PngBitDepth::Two
    } else if bpc == 4 {
        PngBitDepth::Four
    } else if bpc == 16 {
        PngBitDepth::Sixteen
    } else {
        PngBitDepth::Eight
    }
}

/// The image that a compressed stream is written as; `None` where its data cannot
/// be decoded, its color space is not supported, rows are missing, or PNG has no
/// such image.
pub open spec fn flate_image(
    dict: Seq<(Seq<u8>, ObjectView)>,
    content: Seq<u8>,
    width: u32,
    height: u32,
) -> Option<PngImage> {
    let depth = png_depth(bits_per_component(dict));
    match (unpredicted(dict, content), color_space(dict)) {
        (Some(raw), Some(info)) => match image_pixels(dict, raw, width, height, info.channels) {
            Some(own) => {
                let pixels = if info.is_cmyk {
                    rgb_pixels(own, cmyk_pixel_count(own.len(), width, height))
                } else {
                    own
                };
                let color = info.png_color_type;
                if pixels.len() == png_size(width, height, color, depth) && png_exists(
                    width,
                    height,
                    color,
                    depth,
                ) {
                    Some(PngImage { width, height, color, depth, pixels })
                } else {
                    None
                }
            },
            None => None,
        },
        _ => None,
    }
}

fn read_depth(bpc: u8) -> (r: PngBitDepth)
    ensures
        r == png_depth(bpc),
{
    if bpc == 1 {
        PngBitDepth::One
    } else if bpc == 2 {
        PngBitDepth::Two
    } else if bpc == 4 {
        PngBitDepth::Four
    } else if bpc == 16 {
        PngBitDepth::Sixteen
    } else {
        PngBitDepth::Eight
    }
}

proof fn lemma_product_bound(a: int, b: int, m: int, n: int)
    requires
        0 <= a <= m,
        0 <= b <= n,
    ensures
        0 <= a * b <= m * n,
{
    assert(0 <= a * b <= m * n) by (nonlinear_arith)
        requires
            0 <= a <= m,
            0 <= b <= n,
    ;
}

/// The bytes of a row: `width` pixels of `channels` components of `bits` bits.
fn row_bytes(width: u32, channels: u8, bits: u8) -> (r: u64)
    ensures
        r == bytes_for(width * channels * bits),
        r <= 0x2000_0000_0000,
{
    proof {
        lemma_product_bound(width as int, channels as int, 0xffff_ffff, 0xff);
        lemma_product_bound(width * channels, bits as int, 0xfe_ffff_ff01, 0xff);
    }
    (width as u64 * channels as u64 * bits as u64 + 7) / 8
}

/// The rows of an image in its own color space, out of the decoded stream. Rows that
/// start with PNG filter types have their filters undone.
pub fn read_pixels(dict: &PdfDict, raw: &Vec<u8>, width: u32, height: u32, channels: u8) -> (r: Option<
    Vec<u8>,
>)
    ensures
        crate::bytes::bytes_of(r) == image_pixels(dict@, raw@, width, height, channels),
{
    let bpc: u8 = match dict.integer("BitsPerComponent") {
        Some(n) => cut_8(n),
        None => 8,
    };
    let predictor = match dict.get("DecodeParms") {
        Some(PdfObject::Dictionary(d)) => match d.integer("Predictor") {
            Some(p) => p >= 10,
            None => false,
        },
        _ => false,
    };
    let row: u64 = row_bytes(width, channels, bpc);
    proof {
        lemma_product_bound(row as int, height as int, 0x2000_0000_0000, 0xffff_ffff);
        lemma_product_bound(row + 1, height as int, 0x2000_0000_0001, 0xffff_ffff);
        lemma_product_bound(channels as int, bpc as int, 0xff, 0xff);
        assert((row + 1) * height == row * height + height) by (nonlinear_arith);
    }
    let total: u128 = row as u128 * height as u128;
    if predictor {
        let needed: u128 = total + height as u128;
        if (raw.len() as u128) < needed {
            return None;
        }
        if height == 0 {
            let empty: Vec<u8> = Vec::new();
            assert(empty@ =~= Seq::empty());
            return Some(empty);
        }
        assert(row <= row * height) by (nonlinear_arith)
            requires
                height >= 1,
                row >= 0,
        ;
        Some(unfilter_png_rows(raw.as_slice(), width, height, row as usize, channels as usize, bpc))
    } else {
        if (raw.len() as u128) < total {
            return None;
        }
        let mut pixels: Vec<u8> = raw.clone();
        assert(pixels@ =~= raw@);
        pixels.truncate(total as usize);
        assert(pixels@ =~= raw@.take(row * height));
        Some(pixels)
    }
}

/// The file of a PNG image, where there is one.
fn write_png(
    width: u32,
    height: u32,
    color: PngColorType,
    depth: PngBitDepth,
    pixels: &Vec<u8>,
) -> (r: Option<Vec<u8>>)
    ensures
        r is Some <==> pixels@.len() == png_size(width, height, color, depth) && png_exists(
            width,
            height,
            color,
            depth,
        ),
        r matches Some(file) ==> png_signature().is_prefix_of(file@) && png_image(file@) == Some(
            (PngImage { width, height, color, depth, pixels: pixels@ }),
        ),
{
    let channels: u8 = match color {
        PngColorType::Grayscale => 1,
        PngColorType::Rgb => 3,
    };
    let bits: u8 = match depth {
        PngBitDepth::One => 1,
        PngBitDepth::Two => 2,
        PngBitDepth::Four => 4,
        PngBitDepth::Eight => 8,
        PngBitDepth::Sixteen => 16,
    };
    let row: u64 = row_bytes(width, channels, bits);
    proof {
        lemma_product_bound(row as int, height as int, 0x2000_0000_0000, 0xffff_ffff);
    }
    let size: u128 = row as u128 * height as u128;
    if pixels.len() as u128 != size {
        return None;
    }
    encode_png(width, height, color, depth, pixels)
}

/// Whether an image lies where a matrix puts it on a page and has some size.
pub open spec fn placed(
    img: ExtractedImage,
    page: u32,
    ctm: Matrix,
    width: u32,
    height: u32,
) -> bool {
    img.page == page && img.x == ctm.e && img.y == ctm.f && img.width == width && img.height
        == height
}

/// Decodes a compressed image stream and writes it as a PNG file.
///
/// The color spaces are RGB, gray and CMYK, which becomes RGB. Rows with PNG filter
/// types (a predictor of 10 or more) have their filters undone, by the width and the
/// depth of the image. Images that are not supported are skipped.
pub fn encode_flatedecode_to_png(
    stream: &PdfStream,
    width: u32,
    height: u32,
    page_num: u32,
    ctm: &Matrix,
) -> (r: Option<ExtractedImage>)
    ensures
        r is Some <==> flate_image(stream.dict@, stream.content@, width, height) is Some,
        r matches Some(img) ==> {
            &&& placed(img, page_num, *ctm, width, height)
            &&& img.format == ImageFormat::Png
            &&& png_signature().is_prefix_of(img.data@)
            &&& png_image(img.data@) == flate_image(stream.dict@, stream.content@, width, height)
        },
{
    let raw: Vec<u8> = match unpredicted_content(stream) {
        Some(raw) => raw,
        None => {
            return None;
        },
    };
    let info = match resolve_color_space(&stream.dict) {
        Some(info) => info,
        None => {
            return None;
        },
    };
    let bpc: u8 = match stream.dict.integer("BitsPerComponent") {
        Some(n) => cut_8(n),
        None => 8,
    };
    let own: Vec<u8> = match read_pixels(&stream.dict, &raw, width, height, info.channels) {
        Some(own) => own,
        None => {
            return None;
        },
    };
    let pixels: Vec<u8> = if info.is_cmyk {
        cmyk_to_rgb(own.as_slice(), width, height)
    } else {
        own
    };
    match write_png(width, height, info.png_color_type, read_depth(bpc), &pixels) {
        Some(data) => Some(
            ExtractedImage {
                page: page_num,
                x: ctm.e,
                y: ctm.f,
                width,
                height,
                format: ImageFormat::Png,
                data,
            },
        ),
        None => None,
    }
}

/// The filter that tells what an image stream holds: the only one, or the last.
pub open spec fn last_filter(dict: Seq<(Seq<u8>, ObjectView)>) -> Option<Seq<u8>> {
    match entry(dict, "Filter"@) {
        Some(ObjectView::Name(n)) => Some(n),
        Some(ObjectView::Array(a)) => if a.len() > 0 {
            match a.last() {
                ObjectView::Name(n) => Some(n),
                _ => None,
            }
        } else {
            None
        },
        _ => None,
    }
}

/// A width or height in pixels, 0 where none is given.
pub open spec fn pixel_count(dict: Seq<(Seq<u8>, ObjectView)>, key: Seq<char>) -> u32 {
    match integer_entry(dict, key) {
        Some(n) => low_32(n),
        None => 0,
    }
}

fn read_pixel_count(dict: &PdfDict, key: &str) -> (r: u32)
    ensures
        r == pixel_count(dict@, key@),
{
    match dict.integer(key) {
        Some(n) => cut_32(n),
        None => 0,
    }
}

/// The JPEG file in a stream whose last filter is DCTDecode; `None` where the
/// filters in front of it fail, or what is left does not start as a JPEG file
/// does.
pub open spec fn jpeg_file(dict: Seq<(Seq<u8>, ObjectView)>, content: Seq<u8>) -> Option<Seq<u8>> {
    match jpeg_filters(dict) {
        Some(filters) => match jpeg_data(filters, content) {
            Some(data) => if data.len() >= 2 && data[0] == 0xff && data[1] == 0xd8 {
                Some(data)
            } else {
                None
            },
            None => None,
        },
        None => None,
    }
}

/// The file that an image is extracted to.
pub enum ImageFile {
    /// A JPEG file, byte for byte.
    Jpeg(Seq<u8>),
    /// A PNG file that holds an image.
    Png(PngImage),
}

/// What is extracted from an image stream; `None` where it has no pixels, or its
/// last filter is neither DCTDecode nor FlateDecode, or its data cannot be used.
pub open spec fn stream_image(dict: Seq<(Seq<u8>, ObjectView)>, content: Seq<u8>) -> Option<
    ImageFile,
> {
    let width = pixel_count(dict, "Width"@);
    let height = pixel_count(dict, "Height"@);
    if width == 0 || height == 0 {
        None
    } else if last_filter(dict) == Some(encode_utf8("DCTDecode"@)) {
        match jpeg_file(dict, content) {
            Some(data) => Some(ImageFile::Jpeg(data)),
            None => None,
        }
    } else if last_filter(dict) == Some(encode_utf8("FlateDecode"@)) {
        match flate_image(dict, content, width, height) {
            Some(image) => Some(ImageFile::Png(image)),
            None => None,
        }
    } else {
        None
    }
}

/// What is extracted from the object with an id; `None` where it is no stream.
pub open spec fn object_image(doc: lopdf::Document, id: ObjectId) -> Option<ImageFile> {
    match object_at(doc, id) {
        Some(ObjectView::Stream(dict, content)) => stream_image(dict, content),
        _ => None,
    }
}

/// Whether an image is the extracted file of a stream, placed on a page.
pub open spec fn is_image_of(
    img: ExtractedImage,
    dict: Seq<(Seq<u8>, ObjectView)>,
    file: ImageFile,
    page: u32,
    ctm: Matrix,
) -> bool {
    &&& placed(img, page, ctm, pixel_count(dict, "Width"@), pixel_count(dict, "Height"@))
    &&& match file {
        ImageFile::Jpeg(data) => img.format == ImageFormat::Jpeg && img.data@ == data,
        ImageFile::Png(image) => img.format == ImageFormat::Png && png_signature().is_prefix_of(
            img.data@,
        ) && png_image(img.data@) == Some(image),
    }
}

fn extract_stream_image(stream: &PdfStream, page_num: u32, ctm: &Matrix) -> (r: Option<
    ExtractedImage,
>)
    ensures
        r is Some <==> stream_image(stream.dict@, stream.content@) is Some,
        r matches Some(img) ==> is_image_of(
            img,
            stream.dict@,
            stream_image(stream.dict@, stream.content@)->0,
            page_num,
            *ctm,
        ),
{
    let filter: Option<&Vec<u8>> = match stream.dict.get("Filter") {
        Some(PdfObject::Name(n)) => Some(n),
        Some(PdfObject::Array(a)) => {
            assert(object_views(a@) =~= PdfObject::Array(*a)@->Array_0);
            if a.len() > 0 {
                match &a[a.len() - 1] {
                    PdfObject::Name(n) => Some(n),
                    _ => None,
                }
            } else {
                None
            }
        },
        _ => None,
    };
    let width: u32 = read_pixel_count(&stream.dict, "Width");
    let height: u32 = read_pixel_count(&stream.dict, "Height");
    if width == 0 || height == 0 {
        return None;
    }
    match filter {
        Some(name) => {
            if spells(name.as_slice(), "DCTDecode") {
                match decode_filters_for_jpeg(stream) {
                    Some(data) => {
                        if data.len() < 2 || data[0] != 0xff || data[1] != 0xd8 {
                            return None;
                        }
                        Some(
                            ExtractedImage {
                                page: page_num,
                                x: ctm.e,
                                y: ctm.f,
                                width,
                                height,
                                format: ImageFormat::Jpeg,
                                data,
                            },
                        )
                    },
                    None => None,
                }
            } else if spells(name.as_slice(), "FlateDecode") {
                encode_flatedecode_to_png(stream, width, height, page_num, ctm)
            } else {
                None
            }
        },
        None => None,
    }
}

/// Extracts an image from the object with an id: a JPEG file as it is, or the
/// pixels of a compressed stream as a PNG file.
pub fn extract_image_xobject(
    doc: &lopdf::Document,
    obj_id: ObjectId,
    page_num: u32,
    ctm: &Matrix,
) -> (r: Option<ExtractedImage>)
    ensures
        r is Some <==> object_image(*doc, obj_id) is Some,
        r matches Some(img) ==> is_image_of(
            img,
            object_at(*doc, obj_id)->0->Stream_0,
            object_image(*doc, obj_id)->0,
            page_num,
            *ctm,
        ),
{
    match get_object(doc, obj_id) {
        Some(PdfObject::Stream(stream)) => extract_stream_image(&stream, page_num, ctm),
        _ => None,
    }
}

} // verus!
