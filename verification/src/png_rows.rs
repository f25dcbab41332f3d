//! PNG row filters, as the predictors 10 to 15 of PDF streams use them.

use vstd::prelude::*;

verus! {

/// The filter types that predict; any other leaves a row as it is.
pub const SUB: u8 = 1;

pub const UP: u8 = 2;

pub const AVERAGE: u8 = 3;

pub const PAETH: u8 = 4;

pub open spec fn distance(a: int, b: int) -> int {
    if a < b {
        b - a
    } else {
        a - b
    }
}

/// The one of `left`, `above` and `upper_left` that is nearest to
/// `left + above - upper_left`, the first of them on a tie.
pub open spec fn paeth(left: int, above: int, upper_left: int) -> int {
    let p = left + above - upper_left;
    if distance(p, left) <= distance(p, above) && distance(p, left) <= distance(p, upper_left) {
        left
    } else if distance(p, above) <= distance(p, upper_left) {
        above
    } else {
        upper_left
    }
}

/// The Paeth predictor, cut to its low eight bits.
pub fn paeth_predictor(a: i32, b: i32, c: i32) -> (r: u8)
    ensures
        r == paeth(a as int, b as int, c as int) % 256,
{
    let p: i64 = a as i64 + b as i64 - c as i64;
    let pa: i64 = if p < a as i64 { a as i64 - p } else { p - a as i64 };
    let pb: i64 = if p < b as i64 { b as i64 - p } else { p - b as i64 };
    let pc: i64 = if p < c as i64 { c as i64 - p } else { p - c as i64 };
    if pa <= pb && pa <= pc {
        low_byte(a)
    } else if pb <= pc {
        low_byte(b)
    } else {
        low_byte(c)
    }
}

fn low_byte(x: i32) -> (r: u8)
    ensures
        r == x as int % 256,
{
    let r: u8 = x as u8;
    assert(x as u8 as i32 == x % 256) by (bit_vector);
    r
}

/// The byte at `i`, 0 before the start.
pub open spec fn at_or_zero(s: Seq<u8>, i: int) -> int {
    if i >= 0 {
        s[i] as int
    } else {
        0
    }
}

/// What a filter predicts for the byte at `i` of a row, from the bytes of the row
/// before it and those of the row above; `bpp` bytes make up a pixel.
pub open spec fn predicted(filter: u8, done: Seq<u8>, above: Seq<u8>, i: int, bpp: int) -> int {
    let left = at_or_zero(done, i - bpp);
    let up = above[i] as int;
    if filter == SUB {
        left
    } else if filter == UP {
        up
    } else if filter == AVERAGE {
        (left + up) / 2
    } else if filter == PAETH {
        paeth(left, up, at_or_zero(above, i - bpp))
    } else {
        0
    }
}

/// A row with its filter undone.
pub open spec fn unfiltered_row(filter: u8, src: Seq<u8>, above: Seq<u8>, bpp: int) -> Seq<u8>
    decreases src.len(),
{
    if src.len() == 0 {
        Seq::empty()
    } else {
        let done = unfiltered_row(filter, src.drop_last(), above, bpp);
        done.push(
            ((src.last() + predicted(filter, done, above, src.len() - 1, bpp)) % 256) as u8,
        )
    }
}

pub open spec fn zeros(n: nat) -> Seq<u8> {
    Seq::new(n, |i: int| 0u8)
}

pub open spec fn min_int(a: int, b: int) -> int {
    if a < b {
        a
    } else {
        b
    }
}

/// The row `r` of `row_len` bytes; what the data do not reach is zero.
pub open spec fn image_row(data: Seq<u8>, r: nat, row_len: nat, bpp: int) -> Seq<u8>
    decreases r,
{
    let start = r as int * (row_len + 1);
    if start >= data.len() {
        zeros(row_len)
    } else {
        let src = data.subrange(start + 1, min_int(start + 1 + row_len, data.len() as int));
        let above = if r == 0 {
            zeros(row_len)
        } else {
            image_row(data, (r - 1) as nat, row_len, bpp)
        };
        unfiltered_row(data[start], src, above, bpp) + zeros((row_len - src.len()) as nat)
    }
}

/// The first `n` rows, one after the other.
pub open spec fn image_rows(data: Seq<u8>, n: nat, row_len: nat, bpp: int) -> Seq<u8>
    decreases n,
{
    if n == 0 {
        Seq::empty()
    } else {
        image_rows(data, (n - 1) as nat, row_len, bpp) + image_row(
            data,
            (n - 1) as nat,
            row_len,
            bpp,
        )
    }
}

/// Bytes per pixel, at least one.
pub open spec fn bytes_per_pixel(channels: int, bpc: int) -> int {
    if channels * bpc / 8 > 1 {
        channels * bpc / 8
    } else {
        1
    }
}

/// Undoes the filter of one row.
fn unfilter_row(filter: u8, data: &[u8], from: usize, to: usize, above: &Vec<u8>, bpp: usize) -> (row:
    Vec<u8>)
    requires
        from <= to <= data@.len(),
        to - from <= above@.len(),
        bpp > 0,
    ensures
        row@ == unfiltered_row(
            filter,
            data@.subrange(from as int, to as int),
            above@,
            bpp as int,
        ),
        row@.len() == to - from,
{
    let ghost src = data@.subrange(from as int, to as int);
    let mut row: Vec<u8> = Vec::new();
    let mut i: usize = 0;
    let n: usize = to - from;
    assert(src.take(0) =~= Seq::empty());
    while i < n
        invariant
            i <= n,
            n == to - from,
            from <= to <= data@.len(),
            n <= above@.len(),
            bpp > 0,
            src == data@.subrange(from as int, to as int),
            row@ == unfiltered_row(filter, src.take(i as int), above@, bpp as int),
            row@.len() == i,
        decreases n - i,
    {
        let left: u8 = if i >= bpp { row[i - bpp] } else { 0 };
        let up: u8 = above[i];
        let upper_left: u8 = if i >= bpp { above[i - bpp] } else { 0 };
        let guess: u8 = if filter == SUB {
            left
        } else if filter == UP {
            up
        } else if filter == AVERAGE {
            ((left as u16 + up as u16) / 2) as u8
        } else if filter == PAETH {
            paeth_predictor(left as i32, up as i32, upper_left as i32)
        } else {
            0
        };
        assert(guess == predicted(filter, row@, above@, i as int, bpp as int));
        let b: u8 = data[from + i];
        let sum: u16 = b as u16 + guess as u16;
        row.push((sum % 256) as u8);
        assert(src.take(i + 1).drop_last() =~= src.take(i as int));
        assert(src.take(i + 1).last() == b);
        i = i + 1;
    }
    assert(src.take(n as int) =~= src);
    row
}

/// Undoes the PNG filters of rows that each start with their filter type.
///
/// The filter types are None (0), Sub (1), Up (2), Average (3) and Paeth (4); an
/// unknown one is taken for None.
pub fn unfilter_png_rows(
    data: &[u8],
    _width: u32,
    height: u32,
    bytes_per_row: usize,
    channels: usize,
    bpc: u8,
) -> (result: Vec<u8>)
    requires
        bytes_per_row * height <= usize::MAX,
        bytes_per_row < usize::MAX,
        channels * bpc <= usize::MAX,
    ensures
        result@ == image_rows(
            data@,
            height as nat,
            bytes_per_row as nat,
            bytes_per_pixel(channels as int, bpc as int),
        ),
        result@.len() == bytes_per_row * height,
{
    let whole: usize = channels * bpc as usize / 8;
    let bpp: usize = if whole > 1 { whole } else { 1 };
    let mut result: Vec<u8> = Vec::new();
    let mut above: Vec<u8> = vec![0u8; bytes_per_row];
    let mut row: u32 = 0;
    let mut start: usize = 0;
    let mut past = false;
    assert(above@ =~= zeros(bytes_per_row as nat));
    assert(bytes_per_row * 0 == 0) by (nonlinear_arith);
    while row < height
        invariant
            row <= height,
            bytes_per_row < usize::MAX,
            bpp > 0,
            bytes_per_row * height <= usize::MAX,
            result@ == image_rows(data@, row as nat, bytes_per_row as nat, bpp as int),
            result@.len() == bytes_per_row * row,
            above@.len() == bytes_per_row,
            !past ==> start == row * (bytes_per_row + 1),
            past ==> row * (bytes_per_row + 1) >= data@.len(),
            row == 0 ==> above@ == zeros(bytes_per_row as nat),
            row > 0 && !past ==> above@ == image_row(
                data@,
                (row - 1) as nat,
                bytes_per_row as nat,
                bpp as int,
            ),
        decreases height - row,
    {
        let ghost before = result@;
        let ghost n = bytes_per_row as nat;
        assert((row + 1) * (n + 1) == row * (n + 1) + (n + 1)) by (nonlinear_arith);
        assert(n * (row + 1) == n * row + n) by (nonlinear_arith);
        let mut line: Vec<u8>;
        if past || start >= data.len() {
            past = true;
            line = vec![0u8; bytes_per_row];
            assert(line@ =~= zeros(n));
        } else {
            let filter: u8 = data[start];
            let from: usize = start + 1;
            let to: usize = if data.len() - from < bytes_per_row {
                data.len()
            } else {
                from + bytes_per_row
            };
            line = unfilter_row(filter, data, from, to, &above, bpp);
            let ghost part = line@;
            while line.len() < bytes_per_row
                invariant
                    part.len() <= line@.len() <= bytes_per_row,
                    line@ == part + zeros((line@.len() - part.len()) as nat),
                decreases bytes_per_row - line@.len(),
            {
                line.push(0);
                assert(line@ =~= part + zeros((line@.len() - part.len()) as nat));
            }
            if data.len() - start <= bytes_per_row {
                past = true;
            } else {
                start = start + (bytes_per_row + 1);
            }
        }
        assert(line@ == image_row(data@, row as nat, n, bpp as int));
        above = line.clone();
        assert(above@ =~= line@);
        result.append(&mut line);
        row = row + 1;
        assert(result@ == before + image_row(data@, (row - 1) as nat, n, bpp as int));
    }
    assert(bytes_per_row * height == bytes_per_row * row);
    result
}

// The filters themselves, which the rows above undo.
/// A row filtered by `filter`.
pub open spec fn filtered_row(filter: u8, row: Seq<u8>, above: Seq<u8>, bpp: int) -> Seq<u8> {
    Seq::new(
        row.len(),
        |i: int| ((row[i] - predicted(filter, row.take(i), above, i, bpp)) % 256) as u8,
    )
}

/// The row above row `r`.
pub open spec fn row_above(rows: Seq<Seq<u8>>, r: int, row_len: nat) -> Seq<u8> {
    if r == 0 {
        zeros(row_len)
    } else {
        rows[r - 1]
    }
}

/// Filtered rows, each after its filter type.
pub open spec fn filtered_image(
    rows: Seq<Seq<u8>>,
    filters: Seq<u8>,
    row_len: nat,
    bpp: int,
) -> Seq<u8>
    decreases rows.len(),
{
    if rows.len() == 0 {
        Seq::empty()
    } else {
        let r = rows.len() - 1;
        filtered_image(rows.drop_last(), filters, row_len, bpp) + seq![filters[r]] + filtered_row(
            filters[r],
            rows[r],
            row_above(rows, r, row_len),
            bpp,
        )
    }
}

/// Rows one after the other.
pub open spec fn joined(rows: Seq<Seq<u8>>) -> Seq<u8>
    decreases rows.len(),
{
    if rows.len() == 0 {
        Seq::empty()
    } else {
        joined(rows.drop_last()) + rows.last()
    }
}

/// Undoing a filter gives back the row that was filtered.
pub proof fn law_row_round_trip(filter: u8, row: Seq<u8>, above: Seq<u8>, bpp: int)
    requires
        bpp > 0,
    ensures
        unfiltered_row(filter, filtered_row(filter, row, above, bpp), above, bpp) == row,
    decreases row.len(),
{
    let src = filtered_row(filter, row, above, bpp);
    if row.len() > 0 {
        let prefix = row.drop_last();
        let i = row.len() - 1;
        law_row_round_trip(filter, prefix, above, bpp);
        assert forall|j: int| 0 <= j < prefix.len() implies src.drop_last()[j] == filtered_row(
            filter,
            prefix,
            above,
            bpp,
        )[j] by {
            assert(prefix.take(j) =~= row.take(j));
        }
        assert(src.drop_last() =~= filtered_row(filter, prefix, above, bpp));
        assert(row.take(i) =~= prefix);
        let p = predicted(filter, prefix, above, i, bpp);
        assert(((row[i] - p) % 256 + p) % 256 == row[i]);
        assert(prefix.push(row[i]) =~= row);
    } else {
        assert(row =~= Seq::empty());
    }
}

proof fn lemma_filtered_image_len(
    rows: Seq<Seq<u8>>,
    filters: Seq<u8>,
    row_len: nat,
    bpp: int,
)
    requires
        forall|r: int| 0 <= r < rows.len() ==> (#[trigger] rows[r]).len() == row_len,
    ensures
        filtered_image(rows, filters, row_len, bpp).len() == rows.len() * (row_len + 1),
    decreases rows.len(),
{
    if rows.len() > 0 {
        lemma_filtered_image_len(rows.drop_last(), filters, row_len, bpp);
        let n = rows.len();
        assert(n * (row_len + 1) == (n - 1) * (row_len + 1) + (row_len + 1)) by (nonlinear_arith);
    } else {
        assert(0 * (row_len + 1) == 0) by (nonlinear_arith);
    }
}

/// A row of an image does not depend on what follows it in the data.
proof fn lemma_image_row_prefix(data: Seq<u8>, tail: Seq<u8>, r: nat, row_len: nat, bpp: int)
    requires
        (r + 1) * (row_len + 1) <= data.len(),
    ensures
        image_row(data + tail, r, row_len, bpp) == image_row(data, r, row_len, bpp),
    decreases r,
{
    let start = r as int * (row_len + 1);
    assert((r + 1) * (row_len + 1) == start + row_len + 1 && start >= 0) by (nonlinear_arith)
        requires
            start == r * (row_len + 1),
    ;
    let all = data + tail;
    assert(all.subrange(start + 1, start + 1 + row_len) =~= data.subrange(
        start + 1,
        start + 1 + row_len,
    ));
    assert(all[start] == data[start]);
    if r > 0 {
        lemma_image_row_prefix(data, tail, (r - 1) as nat, row_len, bpp);
    }
}

proof fn lemma_image_rows_prefix(data: Seq<u8>, tail: Seq<u8>, n: nat, row_len: nat, bpp: int)
    requires
        n * (row_len + 1) <= data.len(),
    ensures
        image_rows(data + tail, n, row_len, bpp) == image_rows(data, n, row_len, bpp),
    decreases n,
{
    if n > 0 {
        assert((n - 1) * (row_len + 1) <= n * (row_len + 1)) by (nonlinear_arith)
            requires
                n > 0,
        ;
        lemma_image_row_prefix(data, tail, (n - 1) as nat, row_len, bpp);
        lemma_image_rows_prefix(data, tail, (n - 1) as nat, row_len, bpp);
    }
}

proof fn lemma_image_round_trip(rows: Seq<Seq<u8>>, filters: Seq<u8>, row_len: nat, bpp: int)
    requires
        bpp > 0,
        filters.len() >= rows.len(),
        forall|r: int| 0 <= r < rows.len() ==> (#[trigger] rows[r]).len() == row_len,
    ensures
        image_rows(
            filtered_image(rows, filters, row_len, bpp),
            rows.len(),
            row_len,
            bpp,
        ) == joined(rows),
        rows.len() > 0 ==> image_row(
            filtered_image(rows, filters, row_len, bpp),
            (rows.len() - 1) as nat,
            row_len,
            bpp,
        ) == rows.last(),
    decreases rows.len(),
{
    if rows.len() > 0 {
        let n = rows.len();
        let r = n - 1;
        let front = rows.drop_last();
        lemma_image_round_trip(front, filters, row_len, bpp);
        lemma_filtered_image_len(front, filters, row_len, bpp);
        let head = filtered_image(front, filters, row_len, bpp);
        let above = row_above(rows, r, row_len);
        let src = filtered_row(filters[r], rows[r], above, bpp);
        let tail = seq![filters[r]] + src;
        let data = filtered_image(rows, filters, row_len, bpp);
        assert(data =~= head + tail);
        lemma_image_rows_prefix(head, tail, r as nat, row_len, bpp);
        let start = r as int * (row_len + 1);
        assert(data[start] == filters[r]);
        assert(data.subrange(start + 1, start + 1 + row_len) =~= src);
        if r > 0 {
            assert(front.last() == rows[r - 1]);
            lemma_image_row_prefix(head, tail, (r - 1) as nat, row_len, bpp);
        }
        law_row_round_trip(filters[r], rows[r], above, bpp);
        assert(rows[r].len() == row_len);
        assert(unfiltered_row(filters[r], src, above, bpp) + zeros(0) =~= rows[r]);
    }
}

/// Undoing the filters gives back every row that was filtered, whichever filter
/// each row had, and whatever follows the last row.
pub proof fn law_image_round_trip(
    rows: Seq<Seq<u8>>,
    filters: Seq<u8>,
    row_len: nat,
    bpp: int,
    after: Seq<u8>,
)
    requires
        bpp > 0,
        filters.len() >= rows.len(),
        forall|r: int| 0 <= r < rows.len() ==> (#[trigger] rows[r]).len() == row_len,
    ensures
        image_rows(
            filtered_image(rows, filters, row_len, bpp) + after,
            rows.len(),
            row_len,
            bpp,
        ) == joined(rows),
{
    lemma_image_round_trip(rows, filters, row_len, bpp);
    lemma_filtered_image_len(rows, filters, row_len, bpp);
    lemma_image_rows_prefix(
        filtered_image(rows, filters, row_len, bpp),
        after,
        rows.len(),
        row_len,
        bpp,
    );
}

/// The rows that pixels are made of.
pub open spec fn rows_of(pixels: Seq<u8>, height: nat, row_len: nat) -> Seq<Seq<u8>> {
    Seq::new(height, |r: int| pixels.subrange(r * row_len, (r + 1) * row_len))
}

proof fn lemma_rows_joined(pixels: Seq<u8>, height: nat, row_len: nat)
    requires
        pixels.len() == row_len * height,
    ensures
        joined(rows_of(pixels, height, row_len)) == pixels,
        forall|r: int|
            0 <= r < height ==> (#[trigger] rows_of(pixels, height, row_len)[r]).len() == row_len,
    decreases height,
{
    let rows = rows_of(pixels, height, row_len);
    assert forall|r: int| 0 <= r < height implies (#[trigger] rows[r]).len() == row_len by {
        assert(0 <= r * row_len && (r + 1) * row_len == r * row_len + row_len && (r + 1) * row_len
            <= row_len * height) by (nonlinear_arith)
            requires
                0 <= r < height,
                row_len >= 0,
        ;
    }
    if height > 0 {
        let h = (height - 1) as nat;
        let cut = h as int * row_len;
        assert(cut + row_len == row_len * height && cut == row_len * h && cut >= 0)
            by (nonlinear_arith)
            requires
                cut == h * row_len,
                h == height - 1,
                h >= 0,
                row_len >= 0,
        ;
        let front = pixels.take(cut);
        lemma_rows_joined(front, h, row_len);
        assert forall|r: int| 0 <= r < h implies rows.drop_last()[r] == rows_of(
            front,
            h,
            row_len,
        )[r] by {
            assert(0 <= r * row_len && r * row_len <= (r + 1) * row_len && (r + 1) * row_len <= h
                * row_len) by (nonlinear_arith)
                requires
                    0 <= r < h,
                    row_len >= 0,
            ;
            assert(front.subrange(r * row_len, (r + 1) * row_len) =~= pixels.subrange(
                r * row_len,
                (r + 1) * row_len,
            ));
        }
        assert(rows.drop_last() =~= rows_of(front, h, row_len));
        assert((h + 1) * row_len == pixels.len()) by (nonlinear_arith)
            requires
                pixels.len() == row_len * height,
                h == height - 1,
        ;
        assert(rows.last() == pixels.subrange(cut, pixels.len() as int));
        assert(front + pixels.subrange(cut, pixels.len() as int) =~= pixels);
    } else {
        assert(pixels.len() == 0) by (nonlinear_arith)
            requires
                pixels.len() == row_len * height,
                height == 0,
        ;
        assert(joined(rows) =~= pixels);
    }
}

/// Filtered pixels have one more byte for each row.
pub proof fn lemma_filtered_pixels_len(
    pixels: Seq<u8>,
    filters: Seq<u8>,
    height: nat,
    row_len: nat,
    bpp: int,
)
    requires
        pixels.len() == row_len * height,
        filters.len() >= height,
    ensures
        filtered_image(rows_of(pixels, height, row_len), filters, row_len, bpp).len() == height * (
        row_len + 1),
{
    lemma_rows_joined(pixels, height, row_len);
    lemma_filtered_image_len(rows_of(pixels, height, row_len), filters, row_len, bpp);
}

/// Pixels that were filtered row by row, with any filter for each row, come out as
/// they were, for every number of channels and bits, and whatever follows them.
pub proof fn law_pixels_round_trip(
    pixels: Seq<u8>,
    filters: Seq<u8>,
    height: nat,
    row_len: nat,
    channels: int,
    bpc: int,
    after: Seq<u8>,
)
    requires
        pixels.len() == row_len * height,
        filters.len() >= height,
    ensures
        image_rows(
            filtered_image(
                rows_of(pixels, height, row_len),
                filters,
                row_len,
                bytes_per_pixel(channels, bpc),
            ) + after,
            height,
            row_len,
            bytes_per_pixel(channels, bpc),
        ) == pixels,
{
    lemma_rows_joined(pixels, height, row_len);
    law_image_round_trip(
        rows_of(pixels, height, row_len),
        filters,
        row_len,
        bytes_per_pixel(channels, bpc),
        after,
    );
}

} // verus!
