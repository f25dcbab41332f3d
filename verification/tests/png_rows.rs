use pdf_extractor::png_rows::{paeth_predictor, unfilter_png_rows};

#[test]
fn paeth_picks_the_nearest() {
    assert_eq!(paeth_predictor(10, 20, 10), 20);
    assert_eq!(paeth_predictor(20, 10, 10), 20);
    assert_eq!(paeth_predictor(10, 10, 20), 10);
    // Ties go to the left, then to the one above, before the corner.
    assert_eq!(paeth_predictor(5, 5, 5), 5);
    assert_eq!(paeth_predictor(11, 8, 10), 8);
    assert_eq!(paeth_predictor(100, 200, 150), 150);
    // The result is cut to eight bits, over the whole range.
    assert_eq!(paeth_predictor(256, 256, 256), 0);
    assert_eq!(paeth_predictor(-1, -1, -1), 255);
    assert_eq!(paeth_predictor(i32::MAX, i32::MAX, i32::MIN), 255);
}

#[test]
fn each_filter_type() {
    let rows = |filter: u8| {
        let data = [0u8, 10, 20, 30, 40, filter, 1, 2, 3, 250];
        unfilter_png_rows(&data, 2, 2, 4, 2, 8)
    };
    assert_eq!(rows(0), vec![10, 20, 30, 40, 1, 2, 3, 250]);
    assert_eq!(rows(1), vec![10, 20, 30, 40, 1, 2, 4, 252]);
    assert_eq!(rows(2), vec![10, 20, 30, 40, 11, 22, 33, 34]);
    assert_eq!(rows(3), vec![10, 20, 30, 40, 6, 12, 21, 20]);
    assert_eq!(rows(4), vec![10, 20, 30, 40, 11, 22, 33, 34]);
    // An unknown type counts as none.
    assert_eq!(rows(9), vec![10, 20, 30, 40, 1, 2, 3, 250]);
}

#[test]
fn missing_data_are_zero() {
    assert_eq!(unfilter_png_rows(&[1, 5, 5], 4, 2, 4, 1, 8), vec![5, 10, 0, 0, 0, 0, 0, 0]);
    assert_eq!(unfilter_png_rows(&[], 2, 2, 2, 1, 8), vec![0, 0, 0, 0]);
    assert_eq!(unfilter_png_rows(&[7], 2, 1, 2, 1, 8), vec![0, 0]);
    assert_eq!(unfilter_png_rows(&[1, 2, 3], 0, 0, 4, 1, 8), Vec::<u8>::new());
    // Less than a byte per pixel counts as one.
    assert_eq!(unfilter_png_rows(&[1, 1, 1, 1], 24, 1, 3, 1, 1), vec![1, 2, 3]);
}

#[test]
fn filtering_is_undone() {
    let (width, height, bpp) = (5usize, 6usize, 3usize);
    let len = width * bpp;
    let pixel = |r: usize, i: usize| (r * 89 + i * i * 7 + r * i * 31) as u8;
    let paeth = |a: u8, b: u8, c: u8| {
        let (a, b, c) = (a as i32, b as i32, c as i32);
        let p = a + b - c;
        let (pa, pb, pc) = ((p - a).abs(), (p - b).abs(), (p - c).abs());
        if pa <= pb && pa <= pc {
            a as u8
        } else if pb <= pc {
            b as u8
        } else {
            c as u8
        }
    };
    let mut data = Vec::new();
    let mut expected = Vec::new();
    for r in 0..height {
        let filter = (r % 5) as u8;
        data.push(filter);
        for i in 0..len {
            let left = if i >= bpp { pixel(r, i - bpp) } else { 0 };
            let up = if r > 0 { pixel(r - 1, i) } else { 0 };
            let corner = if r > 0 && i >= bpp { pixel(r - 1, i - bpp) } else { 0 };
            let guess = match filter {
                1 => left,
                2 => up,
                3 => ((left as u16 + up as u16) / 2) as u8,
                4 => paeth(left, up, corner),
                _ => 0,
            };
            data.push(pixel(r, i).wrapping_sub(guess));
            expected.push(pixel(r, i));
        }
    }
    assert_eq!(unfilter_png_rows(&data, width as u32, height as u32, len, bpp, 8), expected);
    // Whatever follows the last row.
    data.extend([4, 1, 2, 3]);
    assert_eq!(unfilter_png_rows(&data, width as u32, height as u32, len, bpp, 8), expected);
}
