//! Laws of the filters of PNG rows, byte by byte.

use crate::png_rows::{
    at_or_zero, bytes_per_pixel, image_row, image_rows, min_int, paeth, predicted, unfiltered_row,
    zeros,
};
use vstd::prelude::*;

verus! {

/// Whether `d` is the distance, in bytes, from a byte to its left neighbour in a row of
/// pixels of so many bits: the whole bytes of a pixel, and 1 for less than a byte.
pub open spec fn is_distance(d: int, pixel_bits: int) -> bool {
    if pixel_bits < 8 {
        d == 1
    } else {
        8 * d <= pixel_bits < 8 * d + 8
    }
}

pub open spec fn apart(a: int, b: int) -> int {
    if a < b {
        b - a
    } else {
        a - b
    }
}

/// Whether `p` is the one of three neighbours that lies nearest to what the slope
/// between them leads to; the left one before the one above, and that before the one
/// at the corner, where they are equally near.
pub open spec fn is_nearest(p: int, left: int, up: int, corner: int) -> bool {
    let guess = left + up - corner;
    let l = apart(guess, left);
    let u = apart(guess, up);
    let c = apart(guess, corner);
    ||| p == left && l <= u && l <= c
    ||| p == up && u < l && u <= c
    ||| p == corner && c < u && (c < l || u < l)
}

/// Whether a byte is what a filtered one stands for, by the type of the filter: 1 adds
/// the left neighbour, 2 the one above, 3 half of both together, 4 the nearest of
/// three; all others leave it as it is.
pub open spec fn is_undone(
    byte: int,
    filter: int,
    src: int,
    left: int,
    up: int,
    corner: int,
) -> bool {
    if filter == 1 {
        byte == (src + left) % 256
    } else if filter == 2 {
        byte == (src + up) % 256
    } else if filter == 3 {
        byte == (src + (left + up) / 2) % 256
    } else if filter == 4 {
        exists|p: int| #[trigger] is_nearest(p, left, up, corner) && byte == (src + p) % 256
    } else {
        byte == src
    }
}

/// The Paeth predictor picks the nearest of its arguments.
pub proof fn law_paeth_nearest(left: int, up: int, corner: int)
    ensures
        is_nearest(paeth(left, up, corner), left, up, corner),
{
}

/// The byte at `i`, or 0 where it is off the image.
pub open spec fn byte_or_nothing(bytes: Seq<u8>, i: int, is_there: bool) -> int {
    if is_there {
        bytes[i] as int
    } else {
        0
    }
}

proof fn lemma_row_byte(filter: u8, src: Seq<u8>, above: Seq<u8>, d: int, i: int)
    requires
        d > 0,
        0 <= i < src.len() <= above.len(),
    ensures
        ({
            let out = unfiltered_row(filter, src, above, d);
            &&& out.len() == src.len()
            &&& is_undone(
                out[i] as int,
                filter as int,
                src[i] as int,
                byte_or_nothing(out, i - d, i >= d),
                above[i] as int,
                byte_or_nothing(above, i - d, i >= d),
            )
        }),
    decreases src.len(),
{
    let front = src.drop_last();
    let done = unfiltered_row(filter, front, above, d);
    let out = unfiltered_row(filter, src, above, d);
    lemma_row_length(filter, front, above, d);
    lemma_row_length(filter, src, above, d);
    let n = src.len() - 1;
    if i < n {
        lemma_row_byte(filter, front, above, d, i);
        assert(out[i] == done[i]);
        if i >= d {
            assert(out[i - d] == done[i - d]);
        }
    } else {
        let left = byte_or_nothing(out, i - d, i >= d);
        let up = above[i] as int;
        let corner = byte_or_nothing(above, i - d, i >= d);
        if i >= d {
            assert(out[i - d] == done[i - d]);
        }
        assert(at_or_zero(done, i - d) == left);
        assert(at_or_zero(above, i - d) == corner);
        law_paeth_nearest(left, up, corner);
        let p = predicted(filter, done, above, i, d);
        assert(out[i] == ((src[i] + p) % 256) as u8);
        assert(0 <= (src[i] + p) % 256 < 256);
        if filter == 0 || filter > 4 {
            assert(p == 0);
        }
        if filter == 4 {
            assert(is_nearest(p, left, up, corner));
        }
    }
}

proof fn lemma_row_length(filter: u8, src: Seq<u8>, above: Seq<u8>, d: int)
    ensures
        unfiltered_row(filter, src, above, d).len() == src.len(),
    decreases src.len(),
{
    if src.len() > 0 {
        lemma_row_length(filter, src.drop_last(), above, d);
    }
}

proof fn lemma_image_row_length(data: Seq<u8>, r: nat, row_len: nat, d: int)
    ensures
        image_row(data, r, row_len, d).len() == row_len,
{
    let start = r as int * (row_len + 1);
    assert(start >= 0) by (nonlinear_arith)
        requires
            start == r * (row_len + 1),
            r >= 0,
            row_len >= 0,
    ;
    if start < data.len() {
        let src = data.subrange(start + 1, min_int(start + 1 + row_len, data.len() as int));
        let above = if r == 0 {
            zeros(row_len)
        } else {
            image_row(data, (r - 1) as nat, row_len, d)
        };
        lemma_row_length(data[start], src, above, d);
    }
}

/// The rows take as many bytes as they have, one after the other.
pub proof fn lemma_rows_length(data: Seq<u8>, n: nat, row_len: nat, d: int)
    ensures
        image_rows(data, n, row_len, d).len() == n * row_len,
    decreases n,
{
    if n > 0 {
        let m = (n - 1) as nat;
        assert(n * row_len == m * row_len + row_len) by (nonlinear_arith)
            requires
                m == n - 1,
        ;
        lemma_image_row_length(data, m, row_len, d);
        lemma_rows_length(data, m, row_len, d);
    } else {
        assert(0 * row_len == 0) by (nonlinear_arith);
    }
}

proof fn lemma_rows_bytes(data: Seq<u8>, n: nat, row_len: nat, d: int, r: int, i: int)
    requires
        0 <= r < n,
        0 <= i < row_len,
    ensures
        image_rows(data, n, row_len, d).len() == n * row_len,
        0 <= r * row_len + i < n * row_len,
        image_rows(data, n, row_len, d)[r * row_len + i] == image_row(
            data,
            r as nat,
            row_len,
            d,
        )[i],
    decreases n,
{
    let m = (n - 1) as nat;
    assert(n * row_len == m * row_len + row_len && 0 <= r * row_len && r * row_len + row_len <= n
        * row_len) by (nonlinear_arith)
        requires
            m == n - 1,
            row_len >= 0,
            n > 0,
            0 <= r < n,
    ;
    lemma_image_row_length(data, m, row_len, d);
    lemma_rows_length(data, m, row_len, d);
    if r < m {
        lemma_rows_bytes(data, m, row_len, d, r, i);
    } else {
        assert(r * row_len == m * row_len);
    }
}

/// Every byte of an image: where the data have a byte at its place, it is what that one
/// stands for, by the filter type in front of its row, its neighbour one pixel to the
/// left, the byte above, and that one's neighbour to the left. What is off the image
/// counts as 0, and a byte that the data do not reach is 0.
pub proof fn law_rows_undone(
    data: Seq<u8>,
    height: nat,
    row_len: nat,
    channels: int,
    bpc: int,
    d: int,
    r: int,
    i: int,
)
    requires
        is_distance(d, channels * bpc),
        0 <= r < height,
        0 <= i < row_len,
    ensures
        ({
            let out = image_rows(data, height, row_len, bytes_per_pixel(channels, bpc));
            let at = r * row_len + i;
            let start = r * (row_len + 1);
            &&& out.len() == height * row_len
            &&& start + 1 + i < data.len() ==> is_undone(
                out[at] as int,
                data[start] as int,
                data[start + 1 + i] as int,
                byte_or_nothing(out, at - d, i >= d),
                byte_or_nothing(out, at - row_len, r > 0),
                byte_or_nothing(out, at - row_len - d, r > 0 && i >= d),
            )
            &&& start + 1 + i >= data.len() ==> out[at] == 0
        }),
{
    assert(bytes_per_pixel(channels, bpc) == d);
    let out = image_rows(data, height, row_len, d);
    let start = r * (row_len + 1);
    assert(start >= 0) by (nonlinear_arith)
        requires
            start == r * (row_len + 1),
            0 <= r < height,
            row_len >= 0,
    ;
    lemma_rows_bytes(data, height, row_len, d, r, i);
    lemma_image_row_length(data, r as nat, row_len, d);
    let row = image_row(data, r as nat, row_len, d);
    if start < data.len() {
        let src = data.subrange(start + 1, min_int(start + 1 + row_len, data.len() as int));
        let above = if r == 0 {
            zeros(row_len)
        } else {
            image_row(data, (r - 1) as nat, row_len, d)
        };
        if r > 0 {
            lemma_image_row_length(data, (r - 1) as nat, row_len, d);
        }
        let part = unfiltered_row(data[start], src, above, d);
        lemma_row_length(data[start], src, above, d);
        assert(row == part + zeros((row_len - src.len()) as nat));
        if i < src.len() {
            lemma_row_byte(data[start], src, above, d, i);
            assert(row[i] == part[i]);
            if i >= d {
                assert(row[i - d] == part[i - d]);
            }
        }
        if i >= d {
            lemma_rows_bytes(data, height, row_len, d, r, i - d);
        }
        if r > 0 {
            assert((r - 1) * row_len == r * row_len - row_len) by (nonlinear_arith);
            lemma_rows_bytes(data, height, row_len, d, r - 1, i);
            if i >= d {
                lemma_rows_bytes(data, height, row_len, d, r - 1, i - d);
            }
        }
    }
}

/// The bytes of a pixel, for the colours and depths that are not smaller than a byte, and
/// the single byte that several pixels of one bit a component share.
pub open spec fn is_pixel_size(channels: int, bpc: int, d: int) -> bool {
    ||| channels == 4 && bpc == 8 && d == 4
    ||| channels == 3 && bpc == 8 && d == 3
    ||| channels == 1 && bpc == 8 && d == 1
    ||| channels == 4 && bpc == 16 && d == 8
    ||| channels == 3 && bpc == 16 && d == 6
    ||| channels == 1 && bpc == 16 && d == 2
    ||| (channels == 1 || channels == 3 || channels == 4) && bpc == 1 && d == 1
}

/// The left neighbour of a byte lies as many bytes before it as a pixel has: four for
/// CMYK and three for RGB at 8 bits, one for gray; six for RGB, two for gray and eight
/// for CMYK at 16 bits. A row that is filtered by its left neighbours at that distance is
/// found again, whatever it holds.
pub proof fn law_left_neighbours(
    row: Seq<u8>,
    above: Seq<u8>,
    src: Seq<u8>,
    channels: int,
    bpc: int,
    d: int,
)
    requires
        is_pixel_size(channels, bpc, d),
        src.len() == row.len(),
        above.len() >= row.len(),
        forall|i: int|
            0 <= i < row.len() ==> (#[trigger] src[i]) as int == (row[i] - (if i >= d {
                row[i - d] as int
            } else {
                0
            })) % 256,
    ensures
        unfiltered_row(1, src, above, bytes_per_pixel(channels, bpc)) == row,
    decreases row.len(),
{
    assert(bytes_per_pixel(channels, bpc) == d);
    let out = unfiltered_row(1, src, above, d);
    lemma_row_length(1, src, above, d);
    lemma_left_neighbours(row, above, src, d, row.len() as int);
    assert(out =~= row);
}

proof fn lemma_left_neighbours(row: Seq<u8>, above: Seq<u8>, src: Seq<u8>, d: int, n: int)
    requires
        d > 0,
        0 <= n <= row.len(),
        src.len() == row.len(),
        above.len() >= row.len(),
        forall|i: int|
            0 <= i < row.len() ==> (#[trigger] src[i]) as int == (row[i] - (if i >= d {
                row[i - d] as int
            } else {
                0
            })) % 256,
    ensures
        forall|i: int|
            0 <= i < n ==> (#[trigger] unfiltered_row(1, src, above, d)[i]) == row[i],
    decreases n,
{
    if n > 0 {
        let i = n - 1;
        lemma_left_neighbours(row, above, src, d, i);
        lemma_row_byte(1, src, above, d, i);
        let out = unfiltered_row(1, src, above, d);
        if i >= d {
            assert(out[i - d] == row[i - d]);
        }
        assert(src[i] as int == (row[i] - (if i >= d {
            row[i - d] as int
        } else {
            0
        })) % 256);
        assert(out[i] == row[i]);
    }
}

} // verus!
