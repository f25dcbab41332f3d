//! Laws of the images of a page.

use crate::arithmetic_laws::{
    is_amount, law_differences_turn_order, law_integer_parts_keep_order, law_products_keep_order,
    law_quotients, law_quotients_keep_order, law_rounding_keeps_order, law_rounds_to_nearest,
};
use crate::document::object_at;
use crate::filter_laws::{is_layer, law_jpeg_unwrapped};
use crate::filters::{is_supported, jpeg_data, jpeg_filters, names_among};
use crate::images::{
    bits_per_component, bytes_for, cmyk_pixel_count, color_space, flate_image, has_png_predictor,
    image_pixels, inverted, jpeg_file, object_image, rgb_channel, rgb_pixels, stream_image,
    ImageColorInfo, ImageFile, PngBitDepth, PngColorType,
};
use crate::object::{entry, ObjectId, ObjectView};
use crate::png_laws::{
    byte_or_nothing, is_distance, is_pixel_size, is_undone, law_rows_undone, lemma_rows_length,
};
use crate::png_rows::{bytes_per_pixel, filtered_image, law_pixels_round_trip, rows_of};
use crate::single::{
    lemma_magnitude_monotone, lemma_zero_units, magnitude_units, scale, significand,
    single_of_int, Single,
};
use crate::single_laws::{
    law_nothing_added, law_over_itself, law_times_one, lemma_nothing_times, lemma_round_exact,
};
use crate::streams::unpredicted;
use vstd::arithmetic::div_mod::lemma_fundamental_div_mod;
use vstd::arithmetic::power2::{lemma2_to64, lemma_pow2_adds, lemma_pow2_pos, pow2};
use vstd::prelude::*;
use vstd::utf8::{encode_utf8, encode_utf8_decode_utf8};

verus! {

/// Pixels whose rows were filtered as PNG has it, with any filter for each row, are
/// found again, for every depth and number of channels, whatever follows the last
/// row.
pub proof fn law_predictor_undone(
    dict: Seq<(Seq<u8>, ObjectView)>,
    pixels: Seq<u8>,
    filters: Seq<u8>,
    width: u32,
    height: u32,
    channels: u8,
    after: Seq<u8>,
)
    requires
        has_png_predictor(dict),
        filters.len() >= height,
        pixels.len() == bytes_for(width * channels * bits_per_component(dict)) * height,
    ensures
        ({
            let row = bytes_for(width * channels * bits_per_component(dict)) as nat;
            let bpp = bytes_per_pixel(channels as int, bits_per_component(dict) as int);
            let rows = rows_of(pixels, height as nat, row);
            image_pixels(
                dict,
                filtered_image(rows, filters, row, bpp) + after,
                width,
                height,
                channels,
            ) == Some(pixels)
        }),
{
    let bits = bits_per_component(dict);
    let n = width * channels;
    assert(width * channels >= 0 && n * bits >= 0) by (nonlinear_arith)
        requires
            n == width * channels,
            bits >= 0,
            width >= 0,
            channels >= 0,
    ;
    let row = bytes_for(width * channels * bits) as nat;
    let bpp = bytes_per_pixel(channels as int, bits as int);
    let rows = rows_of(pixels, height as nat, row);
    law_pixels_round_trip(
        pixels,
        filters,
        height as nat,
        row,
        channels as int,
        bits as int,
        after,
    );
    crate::png_rows::lemma_filtered_pixels_len(pixels, filters, height as nat, row, bpp);
    assert((row + 1) * height == height * (row + 1)) by (nonlinear_arith);
}

/// Whether a value is that of a key: of the first entry that has it.
pub open spec fn is_value_of(v: ObjectView, dict: Seq<(Seq<u8>, ObjectView)>, key: Seq<char>) -> bool {
    exists|k: int|
        0 <= k < dict.len() && #[trigger] dict[k] == (encode_utf8(key), v) && forall|i: int|
            0 <= i < k ==> (#[trigger] dict[i]).0 != encode_utf8(key)
}

pub open spec fn has_no_value(dict: Seq<(Seq<u8>, ObjectView)>, key: Seq<char>) -> bool {
    forall|i: int| 0 <= i < dict.len() ==> (#[trigger] dict[i]).0 != encode_utf8(key)
}

/// What a key has for a value is what the first entry with it holds.
pub proof fn law_entries(dict: Seq<(Seq<u8>, ObjectView)>, key: Seq<char>, v: ObjectView)
    ensures
        entry(dict, key) is None <==> has_no_value(dict, key),
        entry(dict, key) == Some(v) <==> is_value_of(v, dict, key),
    decreases dict.len(),
{
    let k = encode_utf8(key);
    if dict.len() > 0 {
        let rest = dict.drop_first();
        law_entries(rest, key, v);
        if dict[0].0 == k {
            if is_value_of(v, dict, key) {
                let m = choose|m: int|
                    0 <= m < dict.len() && #[trigger] dict[m] == (k, v) && forall|i: int|
                        0 <= i < m ==> (#[trigger] dict[i]).0 != k;
                if m > 0 {
                    assert(dict[0].0 != k);
                }
            }
            if dict[0].1 == v {
                assert(dict[0] == (k, v));
            }
        } else {
            assert forall|i: int| 0 <= i < dict.len() && has_no_value(rest, key) implies (
            #[trigger] dict[i]).0 != k by {
                if i > 0 {
                    assert(dict[i] == rest[i - 1]);
                }
            }
            assert forall|i: int| 0 <= i < rest.len() && has_no_value(dict, key) implies (
            #[trigger] rest[i]).0 != k by {
                assert(rest[i] == dict[i + 1]);
            }
            if is_value_of(v, rest, key) {
                let m = choose|m: int|
                    0 <= m < rest.len() && #[trigger] rest[m] == (k, v) && forall|i: int|
                        0 <= i < m ==> (#[trigger] rest[i]).0 != k;
                assert(dict[m + 1] == (k, v));
                assert forall|i: int| 0 <= i < m + 1 implies (#[trigger] dict[i]).0 != k by {
                    if i > 0 {
                        assert(dict[i] == rest[i - 1]);
                    }
                }
            }
            if is_value_of(v, dict, key) {
                let m = choose|m: int|
                    0 <= m < dict.len() && #[trigger] dict[m] == (k, v) && forall|i: int|
                        0 <= i < m ==> (#[trigger] dict[i]).0 != k;
                assert(rest[m - 1] == (k, v));
                assert forall|i: int| 0 <= i < m - 1 implies (#[trigger] rest[i]).0 != k by {
                    assert(rest[i] == dict[i + 1]);
                }
            }
        }
    }
}

/// Whether a dictionary names a color space: by a name, or an array that a name comes
/// first in.
pub open spec fn names_color_space(dict: Seq<(Seq<u8>, ObjectView)>, name: Seq<u8>) -> bool {
    ||| entry(dict, "ColorSpace"@) == Some(ObjectView::Name(name))
    ||| (entry(dict, "ColorSpace"@) matches Some(ObjectView::Array(a)) && a.len() > 0 && a[0]
        == ObjectView::Name(name))
}

proof fn lemma_color_names()
    ensures
        ({
            let rgb = encode_utf8("DeviceRGB"@);
            let cal_rgb = encode_utf8("CalRGB"@);
            let icc = encode_utf8("ICCBased"@);
            let gray = encode_utf8("DeviceGray"@);
            let cal_gray = encode_utf8("CalGray"@);
            let cmyk = encode_utf8("DeviceCMYK"@);
            &&& gray != rgb && gray != cal_rgb && gray != icc
            &&& cal_gray != rgb && cal_gray != cal_rgb && cal_gray != icc
            &&& cmyk != rgb && cmyk != cal_rgb && cmyk != icc && cmyk != gray && cmyk != cal_gray
        }),
{
    reveal_strlit("DeviceRGB");
    reveal_strlit("CalRGB");
    reveal_strlit("ICCBased");
    reveal_strlit("DeviceGray");
    reveal_strlit("CalGray");
    reveal_strlit("DeviceCMYK");
    encode_utf8_decode_utf8("DeviceRGB"@);
    encode_utf8_decode_utf8("CalRGB"@);
    encode_utf8_decode_utf8("ICCBased"@);
    encode_utf8_decode_utf8("DeviceGray"@);
    encode_utf8_decode_utf8("CalGray"@);
    encode_utf8_decode_utf8("DeviceCMYK"@);
    assert("DeviceRGB"@.len() == 9);
    assert("CalRGB"@.len() == 6);
    assert("ICCBased"@.len() == 8);
    assert("DeviceGray"@.len() == 10 && "DeviceGray"@[6] == 'G');
    assert("CalGray"@.len() == 7);
    assert("DeviceCMYK"@.len() == 10 && "DeviceCMYK"@[6] == 'C');
}

/// The color spaces and how many channels they have: gray has one, RGB and profiles have
/// three, CMYK has four and is written as RGB. Any other named one is not supported; no
/// name at all is RGB.
pub proof fn law_color_spaces(dict: Seq<(Seq<u8>, ObjectView)>, name: Seq<u8>)
    ensures
        ({
            let info = color_space(dict);
            let named = names_color_space(dict, name);
            let is_rgb = name == encode_utf8("DeviceRGB"@) || name == encode_utf8("CalRGB"@) || name
                == encode_utf8("ICCBased"@);
            let is_gray = name == encode_utf8("DeviceGray"@) || name == encode_utf8("CalGray"@);
            let is_cmyk = name == encode_utf8("DeviceCMYK"@);
            &&& named && is_rgb ==> info is Some && info->0.channels == 3 && info->0.png_color_type
                == PngColorType::Rgb && !info->0.is_cmyk
            &&& named && is_gray ==> info is Some && info->0.channels == 1 && info->0.png_color_type
                == PngColorType::Grayscale && !info->0.is_cmyk
            &&& named && is_cmyk ==> info is Some && info->0.channels == 4 && info->0.png_color_type
                == PngColorType::Rgb && info->0.is_cmyk
            &&& named && !is_rgb && !is_gray && !is_cmyk ==> info is None
            &&& (forall|n: Seq<u8>| !#[trigger] names_color_space(dict, n)) ==> info is Some
                && info->0.channels == 3 && info->0.png_color_type == PngColorType::Rgb
                && !info->0.is_cmyk
        }),
{
    lemma_color_names();
    if forall|n: Seq<u8>| !#[trigger] names_color_space(dict, n) {
        match entry(dict, "ColorSpace"@) {
            Some(ObjectView::Name(n)) => {
                assert(names_color_space(dict, n));
            },
            Some(ObjectView::Array(a)) => {
                if a.len() > 0 {
                    if let ObjectView::Name(n) = a[0] {
                        assert(names_color_space(dict, n));
                    }
                }
            },
            _ => {},
        }
    }
}

/// Each pixel of CMYK, four bytes, becomes three: what is left of the full 255 after its
/// own ink and the black are taken away, for cyan, magenta and yellow in turn. The
/// pixels keep their order.
pub proof fn law_cmyk_pixels(data: Seq<u8>, n: nat, p: int, j: int)
    requires
        0 <= p < n,
        0 <= j < 3,
    ensures
        ({
            let full = Single { bits: 0x437f_0000 };
            let one = Single { bits: 0x3f80_0000 };
            let ink = one.minus(single_of_int(data[4 * p + j] as int).over(full));
            let black = one.minus(single_of_int(data[4 * p + 3] as int).over(full));
            let out = rgb_pixels(data, n);
            &&& out.len() == 3 * n
            &&& out[3 * p + j] == full.times(ink).times(black).integer_part(0, 255) as u8
        }),
{
    let i = 3 * p + j;
    assert(i / 3 == p && i % 3 == j);
}

/// Whether a row takes so many bytes: the fewest that hold its bits.
pub open spec fn is_row_of_bits(row: int, bits: int) -> bool {
    8 * row >= bits && 8 * row < bits + 8
}

/// Whether the components of an image have so many bits: the low byte of what it says,
/// or 8 where it says nothing.
pub open spec fn has_depth(dict: Seq<(Seq<u8>, ObjectView)>, bpc: u8) -> bool {
    match entry(dict, "BitsPerComponent"@) {
        Some(ObjectView::Integer(n)) => bpc as int == n as int % 256,
        _ => bpc == 8,
    }
}

/// Whether the rows of an image have filters: its parameters name a predictor of 10 or
/// more.
pub open spec fn has_filtered_rows(dict: Seq<(Seq<u8>, ObjectView)>) -> bool {
    entry(dict, "DecodeParms"@) matches Some(ObjectView::Dictionary(d)) && entry(d, "Predictor"@)
        matches Some(ObjectView::Integer(p)) && p >= 10
}

/// The pixels of an image without filters are the first bytes of its data, as many as its
/// rows take; those of one with filters need one more byte for each row. With less data
/// there is no image.
pub proof fn law_pixels_needed(
    dict: Seq<(Seq<u8>, ObjectView)>,
    raw: Seq<u8>,
    width: u32,
    height: u32,
    channels: u8,
    bpc: u8,
    row: int,
)
    requires
        has_depth(dict, bpc),
        is_row_of_bits(row, width * channels * bpc),
    ensures
        ({
            let pixels = image_pixels(dict, raw, width, height, channels);
            &&& !has_filtered_rows(dict) && raw.len() < row * height ==> pixels is None
            &&& !has_filtered_rows(dict) && raw.len() >= row * height ==> pixels is Some
                && pixels->0.len() == row * height && pixels->0 == raw.take(row * height)
            &&& has_filtered_rows(dict) ==> (pixels is Some <==> raw.len() >= row * height + height)
            &&& pixels is Some ==> pixels->0.len() == row * height
        }),
{
    assert(bits_per_component(dict) == bpc);
    let bits = width * channels * bpc;
    assert(bytes_for(bits) == row);
    assert(bits >= 0) by (nonlinear_arith)
        requires
            bits == width * channels * bpc,
    ;
    assert(row >= 0);
    assert(row * height >= 0 && (row + 1) * height == row * height + height) by (nonlinear_arith)
        requires
            row >= 0,
            height >= 0,
    ;
    if has_filtered_rows(dict) {
        lemma_rows_length(
            raw,
            height as nat,
            row as nat,
            bytes_per_pixel(channels as int, bpc as int),
        );
        assert(height * row == row * height) by (nonlinear_arith);
    }
}

/// Each byte of an image with filters is undone by the whole pixel to its left, the byte
/// above, and that one's left neighbour.
pub proof fn law_pixels_undone(
    dict: Seq<(Seq<u8>, ObjectView)>,
    raw: Seq<u8>,
    width: u32,
    height: u32,
    channels: u8,
    bpc: u8,
    row: int,
    d: int,
    r: int,
    i: int,
)
    requires
        has_depth(dict, bpc),
        has_filtered_rows(dict),
        is_row_of_bits(row, width * channels * bpc),
        is_distance(d, channels * bpc),
        raw.len() >= row * height + height,
        0 <= r < height,
        0 <= i < row,
    ensures
        ({
            let pixels = image_pixels(dict, raw, width, height, channels);
            let out = pixels->0;
            let at = r * row + i;
            let start = r * (row + 1);
            &&& pixels is Some
            &&& is_undone(
                out[at] as int,
                raw[start] as int,
                raw[start + 1 + i] as int,
                byte_or_nothing(out, at - d, i >= d),
                byte_or_nothing(out, at - row, r > 0),
                byte_or_nothing(out, at - row - d, r > 0 && i >= d),
            )
        }),
{
    law_pixels_needed(dict, raw, width, height, channels, bpc, row);
    assert(bits_per_component(dict) == bpc);
    assert(bytes_for(width * channels * bpc) == row);
    law_rows_undone(
        raw,
        height as nat,
        row as nat,
        channels as int,
        bpc as int,
        d,
        r,
        i,
    );
    assert(r * (row + 1) + 1 + i < raw.len()) by (nonlinear_arith)
        requires
            raw.len() >= row * height + height,
            0 <= r < height,
            0 <= i < row,
    ;
}

/// Whether a PNG depth is that of so many bits.
pub open spec fn is_depth_of(depth: PngBitDepth, bpc: u8) -> bool {
    match depth {
        PngBitDepth::One => bpc == 1,
        PngBitDepth::Two => bpc == 2,
        PngBitDepth::Four => bpc == 4,
        PngBitDepth::Eight => bpc == 8,
        PngBitDepth::Sixteen => bpc == 16,
    }
}

/// A gray or RGB image whose data and rows are all there is written with its own pixels,
/// size, color and depth: gray with 1, 2, 4, 8 or 16 bits, RGB with 8 or 16. RGB with
/// less is not written.
pub proof fn law_written_as_it_is(
    dict: Seq<(Seq<u8>, ObjectView)>,
    content: Seq<u8>,
    width: u32,
    height: u32,
    bpc: u8,
    raw: Seq<u8>,
    info: ImageColorInfo,
    pixels: Seq<u8>,
)
    requires
        width > 0,
        height > 0,
        has_depth(dict, bpc),
        bpc == 1 || bpc == 2 || bpc == 4 || bpc == 8 || bpc == 16,
        unpredicted(dict, content) == Some(raw),
        color_space(dict) == Some(info),
        !info.is_cmyk,
        image_pixels(dict, raw, width, height, info.channels) == Some(pixels),
    ensures
        ({
            let image = flate_image(dict, content, width, height);
            let is_gray = info.png_color_type == PngColorType::Grayscale;
            &&& is_gray || bpc >= 8 ==> image is Some && image->0.width == width && image->0.height
                == height && image->0.color == info.png_color_type && is_depth_of(
                image->0.depth,
                bpc,
            ) && image->0.pixels == pixels
            &&& !is_gray && bpc < 8 ==> image is None
        }),
{
    lemma_color_names();
    assert(bits_per_component(dict) == bpc);
    let bits = width * info.channels * bpc;
    let row = bytes_for(bits);
    assert(is_row_of_bits(row, bits));
    law_pixels_needed(dict, raw, width, height, info.channels, bpc, row);
}

/// A CMYK image of 8 bits whose data and rows are all there is written as RGB of 8 bits,
/// pixel by pixel.
pub proof fn law_cmyk_written_as_rgb(
    dict: Seq<(Seq<u8>, ObjectView)>,
    content: Seq<u8>,
    width: u32,
    height: u32,
    raw: Seq<u8>,
    info: ImageColorInfo,
    own: Seq<u8>,
)
    requires
        width > 0,
        height > 0,
        has_depth(dict, 8),
        unpredicted(dict, content) == Some(raw),
        color_space(dict) == Some(info),
        info.is_cmyk,
        image_pixels(dict, raw, width, height, info.channels) == Some(own),
    ensures
        ({
            let image = flate_image(dict, content, width, height);
            &&& image is Some
            &&& image->0.width == width && image->0.height == height
            &&& image->0.color == PngColorType::Rgb
            &&& image->0.depth == PngBitDepth::Eight
            &&& image->0.pixels == rgb_pixels(own, (width * height) as nat)
        }),
{
    lemma_color_names();
    assert(bits_per_component(dict) == 8);
    let bits = width * info.channels * 8u8;
    let row = bytes_for(bits);
    assert(is_row_of_bits(row, bits));
    law_pixels_needed(dict, raw, width, height, info.channels, 8, row);
    assert(info.channels == 4);
    assert(row == 4 * width);
    let n = width * height;
    assert(own.len() == 4 * n) by (nonlinear_arith)
        requires
            own.len() == row * height,
            row == 4 * width,
            n == width * height,
    ;
    assert(bytes_for(width * 3 * 8) == 3 * width);
    assert(3 * width * height == 3 * n && n >= 0) by (nonlinear_arith)
        requires
            n == width * height,
    ;
}

/// No pixels, data that cannot be decoded, a color space that is not supported and missing
/// rows all make that nothing is written.
pub proof fn law_not_written(
    dict: Seq<(Seq<u8>, ObjectView)>,
    content: Seq<u8>,
    width: u32,
    height: u32,
)
    ensures
        width == 0 || height == 0 ==> flate_image(dict, content, width, height) is None,
        unpredicted(dict, content) is None ==> flate_image(dict, content, width, height) is None,
        color_space(dict) is None ==> flate_image(dict, content, width, height) is None,
        (unpredicted(dict, content) matches Some(raw) && color_space(dict) matches Some(info)
            && image_pixels(dict, raw, width, height, info.channels) is None) ==> flate_image(
            dict,
            content,
            width,
            height,
        ) is None,
{
}

/// Whether the last filter of a stream has a name: its only one, or the last of an array.
pub open spec fn ends_with_filter(dict: Seq<(Seq<u8>, ObjectView)>, name: Seq<char>) -> bool {
    ||| entry(dict, "Filter"@) == Some(ObjectView::Name(encode_utf8(name)))
    ||| (entry(dict, "Filter"@) matches Some(ObjectView::Array(a)) && a.len() > 0 && a[a.len() - 1]
        == ObjectView::Name(encode_utf8(name)))
}

/// Whether an image has so many pixels along a side: the low four bytes of what it says.
pub open spec fn has_side(dict: Seq<(Seq<u8>, ObjectView)>, key: Seq<char>, n: u32) -> bool {
    match entry(dict, key) {
        Some(ObjectView::Integer(side)) => n as int == side as int % 0x1_0000_0000,
        _ => n == 0,
    }
}

/// What becomes of an image stream: nothing, if it has no pixels, or its last filter is
/// neither `DCTDecode` nor `FlateDecode`; the JPEG file in it, or the PNG image that it is
/// written as, where there is one.
pub proof fn law_image_streams(
    dict: Seq<(Seq<u8>, ObjectView)>,
    content: Seq<u8>,
    width: u32,
    height: u32,
)
    requires
        has_side(dict, "Width"@, width),
        has_side(dict, "Height"@, height),
    ensures
        ({
            let file = stream_image(dict, content);
            let jpeg = ends_with_filter(dict, "DCTDecode"@);
            let flate = ends_with_filter(dict, "FlateDecode"@);
            let image = flate_image(dict, content, width, height);
            &&& width == 0 || height == 0 ==> file is None
            &&& !jpeg && !flate ==> file is None
            &&& width > 0 && height > 0 && jpeg ==> (match jpeg_file(dict, content) {
                Some(data) => file == Some(ImageFile::Jpeg(data)),
                None => file is None,
            })
            &&& width > 0 && height > 0 && flate ==> (match image {
                Some(png) => file == Some(ImageFile::Png(png)),
                None => file is None,
            })
        }),
{
    reveal_strlit("DCTDecode");
    reveal_strlit("FlateDecode");
    encode_utf8_decode_utf8("DCTDecode"@);
    encode_utf8_decode_utf8("FlateDecode"@);
    assert("DCTDecode"@.len() == 9);
    assert("FlateDecode"@.len() == 11);
}

/// A stream with the filter `DCTDecode` alone is a JPEG file, byte for byte, where it
/// starts with the bytes FF D8, and none where not.
pub proof fn law_plain_jpeg(dict: Seq<(Seq<u8>, ObjectView)>, content: Seq<u8>)
    requires
        entry(dict, "Filter"@) == Some(ObjectView::Name(encode_utf8("DCTDecode"@))),
    ensures
        jpeg_file(dict, content) == (if content.len() >= 2 && content[0] == 0xff && content[1]
            == 0xd8 {
            Some(content)
        } else {
            None
        }),
{
    let filters = seq![encode_utf8("DCTDecode"@)];
    assert(filters[0] == encode_utf8("DCTDecode"@));
    assert(forall|i: int| 0 <= i < filters.len() ==> is_supported(#[trigger] filters[i]));
}

/// A JPEG file in layers of other encodings, which an array of filters names from the
/// outside in, is found where it starts with the bytes FF D8.
pub proof fn law_wrapped_jpeg(
    dict: Seq<(Seq<u8>, ObjectView)>,
    names: Seq<Seq<u8>>,
    layers: Seq<Seq<u8>>,
)
    requires
        layers.len() == names.len() + 1,
        forall|i: int|
            0 <= i < names.len() ==> is_layer(#[trigger] names[i], layers[i], layers[i + 1]),
        entry(dict, "Filter"@) == Some(
            ObjectView::Array(
                Seq::new(
                    names.len() + 1,
                    |i: int| ObjectView::Name(names.push(encode_utf8("DCTDecode"@))[i]),
                ),
            ),
        ),
        layers.last().len() >= 2,
        layers.last()[0] == 0xff,
        layers.last()[1] == 0xd8,
    ensures
        jpeg_file(dict, layers[0]) == Some(layers.last()),
{
    let all = names.push(encode_utf8("DCTDecode"@));
    let objects = Seq::new(names.len() + 1, |i: int| ObjectView::Name(all[i]));
    lemma_all_names(objects, all);
    law_jpeg_unwrapped(names, layers);
}

proof fn lemma_all_names(objects: Seq<ObjectView>, names: Seq<Seq<u8>>)
    requires
        objects.len() == names.len(),
        forall|i: int| 0 <= i < names.len() ==> #[trigger] objects[i] == ObjectView::Name(names[i]),
    ensures
        names_among(objects) == names,
    decreases objects.len(),
{
    if objects.len() > 0 {
        let o = objects.drop_last();
        let n = names.drop_last();
        assert forall|i: int| 0 <= i < n.len() implies #[trigger] o[i] == ObjectView::Name(n[i]) by {
            assert(objects[i] == ObjectView::Name(names[i]));
        }
        lemma_all_names(o, n);
        assert(objects[objects.len() - 1] == ObjectView::Name(names[names.len() - 1]));
        assert(n.push(names.last()) =~= names);
    } else {
        assert(names =~= Seq::empty());
    }
}

proof fn lemma_full_byte()
    ensures
        single_of_int(255) == Single::from_bits(0x437f_0000),
        single_of_int(0) == Single::from_bits(0),
        Single::from_bits(0x437f_0000).abs_units() == 255 * pow2(149),
{
    reveal(single_of_int);
    lemma2_to64();
    lemma_pow2_adds(16, 133);
    let mag = 0x437f_0000int;
    assert(significand(mag) == 0xff_0000 && scale(mag) == 133);
    assert(0xff_0000 * pow2(133) == 255 * pow2(149)) by (nonlinear_arith)
        requires
            pow2(149) == 0x1_0000 * pow2(133),
    ;
    lemma_round_exact(mag);
    let zero = 0int;
    assert(significand(zero) == 0 && scale(zero) == 0);
    assert(0 * pow2(0) == 0) by (nonlinear_arith);
    lemma_round_exact(zero);
    assert(0 * pow2(149) == 0) by (nonlinear_arith);
}

/// Without ink a pixel is white, and with all of an ink, or with all of the black, the color
/// that it takes away is gone, however much of the other there is.
pub proof fn law_ink(c: u8, k: u8)
    ensures
        rgb_channel(0, 0) == 255,
        rgb_channel(255, k) == 0,
        rgb_channel(c, 255) == 0,
{
    let full = Single { bits: 0x437f_0000 };
    let one = Single { bits: 0x3f80_0000 };
    let zero = Single { bits: 0 };
    lemma_full_byte();
    assert(full.mag() == 0x437f_0000 && one.mag() == 0x3f80_0000 && zero.mag() == 0);
    assert(zero.over(full).mag() == 0) by {
        lemma_nothing_over(full);
    }
    law_nothing_added(one, zero.over(full));
    assert(inverted(0) == one);
    law_over_itself(full);
    assert(one.minus(one) == zero) by {
        reveal(Single::plus);
        assert(one.negated().mag() == one.mag());
    }
    assert(inverted(255) == zero);
    law_times_one(full);
    assert(full.integer_part(0, 255) == 255) by {
        reveal(Single::integer_part);
        lemma_pow2_pos(149);
        let p = pow2(149) as int;
        assert(255 * p / p == 255) by (nonlinear_arith)
            requires
                p > 0,
        ;
    }
    lemma_nothing_times(zero, full, 255);
    lemma_nothing_times(zero, full.times(inverted(c)), 255);
    let gone = full.times(zero);
    if gone.is_nan() {
        assert(gone.times(inverted(k)).is_nan()) by {
            reveal(Single::times);
            assert(Single { bits: crate::single::NAN }.is_nan());
        }
        assert(gone.times(inverted(k)).integer_part(0, 255) == 0) by {
            reveal(Single::integer_part);
        }
    } else {
        lemma_nothing_times(gone, inverted(k), 255);
    }
}

proof fn lemma_nothing_over(x: Single)
    requires
        x.is_finite(),
        x.mag() != 0,
    ensures
        Single::from_bits(0).over(x).mag() == 0,
{
    let zero = Single { bits: 0 };
    assert(zero.mag() == 0);
    law_quotients(zero, x);
    lemma_zero_units(zero);
    lemma_zero_units(x);
    assert(zero.abs_units() == 0);
    let q = zero.over(x).mag();
    assert(0 * pow2(149) == 0) by (nonlinear_arith);
    lemma_pow2_pos(scale(x.mag()));
    let a = x.abs_units();
    assert(a >= 0) by (nonlinear_arith)
        requires
            a == significand(x.mag()) * pow2(scale(x.mag())),
            significand(x.mag()) >= 0,
            pow2(scale(x.mag())) > 0,
    ;
    if q > 0 {
        lemma_magnitude_monotone(q - 1, q);
        let both = magnitude_units(q) + magnitude_units(q - 1);
        if q - 1 > 0 {
            lemma_magnitude_monotone(0, q - 1);
        }
        assert(magnitude_units(0) == 0) by {
            assert(significand(0) == 0);
            assert(0 * pow2(0) == 0) by (nonlinear_arith);
        }
        assert(both > 0);
        assert(a * both > 0) by (nonlinear_arith)
            requires
                a > 0,
                both > 0,
        ;
    }
}

/// CMYK data give as many pixels as they have four bytes for, and no more than there are
/// in the image.
pub proof fn law_cmyk_count(len: nat, width: u32, height: u32)
    ensures
        ({
            let n = cmyk_pixel_count(len, width, height);
            &&& n <= width * height
            &&& 4 * n <= len
            &&& n == width * height || 4 * (n + 1) > len
        }),
{
    assert(width * height >= 0) by (nonlinear_arith);
}

/// A gray or RGB image of a depth that PNG does not have is written with 8 bits, where its
/// pixels happen to fill as many bytes, and not at all where they do not.
pub proof fn law_other_depths(
    dict: Seq<(Seq<u8>, ObjectView)>,
    content: Seq<u8>,
    width: u32,
    height: u32,
    bpc: u8,
    raw: Seq<u8>,
    info: ImageColorInfo,
    pixels: Seq<u8>,
)
    requires
        width > 0,
        height > 0,
        has_depth(dict, bpc),
        bpc != 1 && bpc != 2 && bpc != 4 && bpc != 16,
        unpredicted(dict, content) == Some(raw),
        color_space(dict) == Some(info),
        !info.is_cmyk,
        image_pixels(dict, raw, width, height, info.channels) == Some(pixels),
    ensures
        ({
            let image = flate_image(dict, content, width, height);
            let fills = pixels.len() == width * info.channels * height;
            &&& fills ==> image is Some && image->0.depth == PngBitDepth::Eight
                && image->0.pixels == pixels && image->0.color == info.png_color_type
                && image->0.width == width && image->0.height == height
            &&& !fills ==> image is None
        }),
{
    lemma_color_names();
    assert(bits_per_component(dict) == bpc);
    let n = width * info.channels;
    assert(bytes_for(n * 8) == n);
    assert(width * 1 * 8 == width * 8 && width * 3 * 8 == (width * 3) * 8);
}

/// CMYK of 1, 2, 4 or 16 bits is not written.
pub proof fn law_cmyk_depths(
    dict: Seq<(Seq<u8>, ObjectView)>,
    content: Seq<u8>,
    width: u32,
    height: u32,
    bpc: u8,
    info: ImageColorInfo,
)
    requires
        has_depth(dict, bpc),
        bpc == 1 || bpc == 2 || bpc == 4 || bpc == 16,
        color_space(dict) == Some(info),
        info.is_cmyk,
    ensures
        flate_image(dict, content, width, height) is None,
{
    lemma_color_names();
    assert(bits_per_component(dict) == bpc);
    if let Some(raw) = unpredicted(dict, content) {
        if let Some(own) = image_pixels(dict, raw, width, height, info.channels) {
            let n = cmyk_pixel_count(own.len(), width, height);
            law_cmyk_count(own.len(), width, height);
            if bpc == 16 && width > 0 && height > 0 {
                assert(bytes_for(width * 3 * 16) == 6 * width);
                assert(6 * width * height > 3 * (width * height) && width * height > 0)
                    by (nonlinear_arith)
                    requires
                        width > 0,
                        height > 0,
                ;
            }
        }
    }
}

/// A JPEG file is what the filters of a stream leave, where that starts with the bytes FF D8.
pub proof fn law_jpeg_files(
    dict: Seq<(Seq<u8>, ObjectView)>,
    content: Seq<u8>,
    filters: Seq<Seq<u8>>,
    data: Seq<u8>,
)
    ensures
        jpeg_filters(dict) is None ==> jpeg_file(dict, content) is None,
        jpeg_filters(dict) == Some(filters) && jpeg_data(filters, content) is None ==> jpeg_file(
            dict,
            content,
        ) is None,
        jpeg_filters(dict) == Some(filters) && jpeg_data(filters, content) == Some(data) ==> {
            let starts = data.len() >= 2 && data[0] == 255 && data[1] == 216;
            &&& starts ==> jpeg_file(dict, content) == Some(data)
            &&& !starts ==> jpeg_file(dict, content) is None
        },
{
}

/// What is no stream gives no image, and a stream gives the image that it holds.
pub proof fn law_images_of_objects(doc: lopdf::Document, id: ObjectId)
    ensures
        object_at(doc, id) matches Some(ObjectView::Stream(dict, content)) ==> object_image(doc, id)
            == stream_image(dict, content),
        !(object_at(doc, id) matches Some(ObjectView::Stream(dict, content))) ==> object_image(
            doc,
            id,
        ) is None,
{
}

/// Whether a byte of the data is one of the pixels less its neighbour `d` places to the left,
/// behind the filter type of its row, which is 1.
pub open spec fn is_less_its_neighbour(
    raw: Seq<u8>,
    pixels: Seq<u8>,
    row: int,
    d: int,
    r: int,
    i: int,
) -> bool {
    let left = if i >= d {
        pixels[r * row + i - d] as int
    } else {
        0
    };
    raw[r * (row + 1)] == 1 && raw[r * (row + 1) + 1 + i] as int == (pixels[r * row + i] - left)
        % 256
}

/// An image whose rows are filtered by their left neighbours is found again, with a
/// predictor of 10 or more: the neighbours lie four bytes to the left in CMYK of 8 bits and
/// eight in CMYK of 16, three in RGB of 8 bits and six in RGB of 16, one in gray of 8 bits
/// and two in gray of 16; with a single bit a component, one.
pub proof fn law_left_neighbours_undone(
    dict: Seq<(Seq<u8>, ObjectView)>,
    raw: Seq<u8>,
    pixels: Seq<u8>,
    width: u32,
    height: u32,
    channels: u8,
    bpc: u8,
    row: int,
    d: int,
)
    requires
        is_pixel_size(channels as int, bpc as int, d),
        has_depth(dict, bpc),
        has_filtered_rows(dict),
        is_row_of_bits(row, width * channels * bpc),
        raw.len() == row * height + height,
        pixels.len() == row * height,
        forall|r: int, i: int|
            0 <= r < height && 0 <= i < row ==> #[trigger] is_less_its_neighbour(
                raw,
                pixels,
                row,
                d,
                r,
                i,
            ),
    ensures
        image_pixels(dict, raw, width, height, channels) == Some(pixels),
{
    law_pixels_needed(dict, raw, width, height, channels, bpc, row);
    let out = image_pixels(dict, raw, width, height, channels)->0;
    assert forall|j: int| 0 <= j < out.len() implies out[j] == pixels[j] by {
        assert(row > 0) by (nonlinear_arith)
            requires
                0 <= j < row * height,
                height >= 0,
        ;
        let r = j / row;
        let i = j % row;
        lemma_fundamental_div_mod(j, row);
        assert(0 <= r < height) by (nonlinear_arith)
            requires
                j == row * r + i,
                0 <= j < row * height,
                0 <= i < row,
        ;
        assert(r * row + i == j) by (nonlinear_arith)
            requires
                j == row * r + i,
        ;
        lemma_left_neighbour_undone(
            dict,
            raw,
            pixels,
            width,
            height,
            channels,
            bpc,
            row,
            d,
            r,
            i,
        );
    }
    assert(out =~= pixels);
}

proof fn lemma_left_neighbour_undone(
    dict: Seq<(Seq<u8>, ObjectView)>,
    raw: Seq<u8>,
    pixels: Seq<u8>,
    width: u32,
    height: u32,
    channels: u8,
    bpc: u8,
    row: int,
    d: int,
    r: int,
    i: int,
)
    requires
        is_pixel_size(channels as int, bpc as int, d),
        has_depth(dict, bpc),
        has_filtered_rows(dict),
        is_row_of_bits(row, width * channels * bpc),
        raw.len() == row * height + height,
        pixels.len() == row * height,
        forall|r: int, i: int|
            0 <= r < height && 0 <= i < row ==> #[trigger] is_less_its_neighbour(
                raw,
                pixels,
                row,
                d,
                r,
                i,
            ),
        0 <= r < height,
        0 <= i < row,
    ensures
        image_pixels(dict, raw, width, height, channels)->0[r * row + i] == pixels[r * row + i],
    decreases i,
{
    assert(is_less_its_neighbour(raw, pixels, row, d, r, i));
    assert(is_distance(d, channels * bpc));
    law_pixels_undone(dict, raw, width, height, channels, bpc, row, d, r, i);
    if i >= d {
        lemma_left_neighbour_undone(
            dict,
            raw,
            pixels,
            width,
            height,
            channels,
            bpc,
            row,
            d,
            r,
            i - d,
        );
        assert(r * row + (i - d) == r * row + i - d);
    }
}

/// What is left of a color after an ink, and how that goes with the ink.
proof fn lemma_left_by_ink(c: u8, d: u8)
    requires
        c <= d,
    ensures
        is_amount(inverted(c)),
        is_amount(inverted(d)),
        inverted(d).mag() <= inverted(c).mag() <= 0x3f80_0000,
{
    let full = Single { bits: 0x437f_0000 };
    let one = Single { bits: 0x3f80_0000 };
    assert(full.mag() == 0x437f_0000 && one.mag() == 0x3f80_0000);
    lemma_full_byte();
    lemma_bytes_ordered(c as int, d as int);
    lemma_bytes_ordered(d as int, 255);
    let x = single_of_int(c as int);
    let y = single_of_int(d as int);
    law_quotients_keep_order(x, y, full);
    law_quotients_keep_order(y, full, full);
    law_over_itself(full);
    law_differences_turn_order(one, x.over(full), y.over(full));
}

proof fn lemma_bytes_ordered(c: int, d: int)
    requires
        0 <= c <= d <= 255,
    ensures
        is_amount(single_of_int(c)),
        is_amount(single_of_int(d)),
        single_of_int(c).mag() <= single_of_int(d).mag() <= 0x437f_0000,
{
    reveal(single_of_int);
    lemma_full_byte();
    lemma_pow2_pos(149);
    let p = pow2(149) as int;
    assert(0 <= c * p <= d * p && d * p <= 255 * p) by (nonlinear_arith)
        requires
            0 <= c <= d <= 255,
            p > 0,
    ;
    law_rounding_keeps_order(c * p, d * p, 1);
    law_rounding_keeps_order(d * p, 255 * p, 1);
    law_rounds_to_nearest(c * p, 1);
    law_rounds_to_nearest(d * p, 1);
    law_rounds_to_nearest(255 * p, 1);
}

/// More ink, or more black, never makes a pixel lighter.
pub proof fn law_more_ink_is_no_lighter(c: u8, k: u8, more_ink: u8, more_black: u8)
    requires
        c <= more_ink,
        k <= more_black,
    ensures
        rgb_channel(more_ink, more_black) <= rgb_channel(c, k),
{
    reveal(Single::integer_part);
    let full = Single { bits: 0x437f_0000 };
    let one = Single { bits: 0x3f80_0000 };
    assert(full.mag() == 0x437f_0000 && one.mag() == 0x3f80_0000);
    lemma_left_by_ink(c, more_ink);
    lemma_left_by_ink(k, more_black);
    let a = inverted(c);
    let b = inverted(k);
    let d = inverted(more_ink);
    let e = inverted(more_black);
    law_products_keep_order(full, d, full, a);
    law_products_keep_order(full, a, full, one);
    law_times_one(full);
    law_products_keep_order(full.times(d), e, full.times(a), b);
    law_products_keep_order(full.times(a), b, full, one);
    law_integer_parts_keep_order(full.times(d).times(e), full.times(a).times(b), 255);
}

} // verus!
