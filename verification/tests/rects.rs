use pdf_extractor::geometry::PdfRect;
use pdf_extractor::rects::{choose_rects, dedup_rects};
use pdf_extractor::single::Single;

fn s(x: f32) -> Single {
    Single { bits: x.to_bits() }
}

fn rect(x: f32, y: f32, w: f32, h: f32, page: u32) -> PdfRect {
    PdfRect { x: s(x), y: s(y), width: s(w), height: s(h), page }
}

#[test]
fn test_dedup_rects_identical() {
    let mut rects = vec![rect(0.0, 0.0, 612.0, 792.0, 1); 3759];
    dedup_rects(&mut rects);
    assert_eq!(rects.len(), 1);
}

#[test]
fn test_dedup_rects_within_tolerance() {
    let mut rects = vec![
        rect(10.0, 20.0, 100.0, 50.0, 1),
        rect(10.2, 20.1, 100.3, 50.4, 1),
    ];
    dedup_rects(&mut rects);
    assert_eq!(rects.len(), 1);
}

#[test]
fn test_dedup_rects_distinct_kept() {
    let mut rects = vec![
        rect(10.0, 20.0, 100.0, 50.0, 1),
        rect(120.0, 20.0, 100.0, 50.0, 1),
        rect(10.0, 80.0, 100.0, 50.0, 1),
    ];
    dedup_rects(&mut rects);
    assert_eq!(rects.len(), 3);
}

#[test]
fn test_dedup_rects_different_pages_kept() {
    let mut rects = vec![
        rect(0.0, 0.0, 612.0, 792.0, 1),
        rect(0.0, 0.0, 612.0, 792.0, 2),
    ];
    dedup_rects(&mut rects);
    assert_eq!(rects.len(), 2);
}

#[test]
fn test_dedup_rects_empty_and_single() {
    let mut empty: Vec<PdfRect> = vec![];
    dedup_rects(&mut empty);
    assert!(empty.is_empty());

    let mut single = vec![rect(1.0, 2.0, 3.0, 4.0, 1)];
    dedup_rects(&mut single);
    assert_eq!(single.len(), 1);
}

#[test]
fn dedup_sorts_by_page_and_grid() {
    let mut rects = vec![
        rect(50.0, 0.0, 10.0, 10.0, 2),
        rect(30.0, 0.0, 10.0, 10.0, 1),
        rect(10.0, 0.0, 10.0, 10.0, 1),
        rect(30.1, 0.1, 10.2, 10.3, 1),
    ];
    dedup_rects(&mut rects);
    assert_eq!(
        rects,
        vec![
            rect(10.0, 0.0, 10.0, 10.0, 1),
            rect(30.0, 0.0, 10.0, 10.0, 1),
            rect(50.0, 0.0, 10.0, 10.0, 2),
        ]
    );
}

#[test]
fn dedup_twice_changes_nothing() {
    let mut once: Vec<PdfRect> = (0..200)
        .map(|i| rect((i * 37 % 100) as f32 / 5.0, (i % 3) as f32, 7.5, -3.25, 1 + i % 2))
        .collect();
    dedup_rects(&mut once);
    let mut twice = once.clone();
    dedup_rects(&mut twice);
    assert_eq!(once, twice);
    assert!(once.len() < 200);
    assert!(once.iter().any(|r| r.page == 1) && once.iter().any(|r| r.page == 2));
}

#[test]
fn dedup_keeps_rects_that_are_not_numbers() {
    let mut rects = vec![rect(f32::NAN, 0.0, 1.0, 1.0, 1), rect(f32::NAN, 0.0, 1.0, 1.0, 1)];
    dedup_rects(&mut rects);
    assert_eq!(rects.len(), 2);
}

#[test]
fn drawn_rects_come_first() {
    let drawn = vec![rect(1.0, 1.0, 2.0, 2.0, 1)];
    let clips = vec![rect(5.0, 5.0, 6.0, 6.0, 1); 9];
    assert_eq!(choose_rects(drawn.clone(), clips.clone(), clips), drawn);
}

#[test]
fn clips_and_fills_where_nothing_is_drawn() {
    let clip = |i: u32| rect(i as f32 * 10.0, 0.0, 5.0, 5.0, 1);
    let fill = |i: u32| rect(i as f32 * 10.0, 50.0, 5.0, 5.0, 1);
    let clips = |n: u32| (0..n).map(clip).collect::<Vec<_>>();
    let fills = |n: u32| (0..n).map(fill).collect::<Vec<_>>();
    // Four clips outweigh eleven fills, and twelve fills outweigh them.
    assert_eq!(choose_rects(vec![], clips(4), fills(11)), clips(4));
    assert_eq!(choose_rects(vec![], clips(4), fills(12)), fills(12));
    // Three clips give way to any fill, and stay where there is none.
    assert_eq!(choose_rects(vec![], clips(3), fills(1)), fills(1));
    assert_eq!(choose_rects(vec![], clips(3), vec![]), clips(3));
    assert_eq!(choose_rects(vec![], vec![], vec![]), vec![]);
    // Equal clips count as one.
    assert_eq!(choose_rects(vec![], vec![clip(0); 50], fills(3)), fills(3));
}

#[test]
fn near_duplicates_go_though_others_sort_between_them() {
    let mut rects = vec![
        rect(0.4, 0.0, 50.0, 50.0, 1),
        rect(0.4, 100.0, 50.0, 50.0, 1),
        rect(0.6, 0.0, 50.0, 50.0, 1),
    ];
    dedup_rects(&mut rects);
    assert_eq!(rects, vec![rect(0.4, 0.0, 50.0, 50.0, 1), rect(0.4, 100.0, 50.0, 50.0, 1)]);

    // No two that are left are near each other.
    let mut many: Vec<PdfRect> = (0..400)
        .map(|i| rect((i % 20) as f32 * 0.3, (i / 20) as f32 * 0.3, 10.0, 10.0, 1))
        .collect();
    dedup_rects(&mut many);
    let far = |a: Single, b: Single| {
        (f32::from_bits(a.bits) - f32::from_bits(b.bits)).abs() >= 0.5
    };
    for (i, a) in many.iter().enumerate() {
        for b in &many[..i] {
            assert!(far(a.x, b.x) || far(a.y, b.y));
        }
    }
    assert_eq!(many.len(), 100);
}

#[test]
fn what_is_left_is_sorted_by_all_coordinates() {
    let sorted = vec![
        rect(0.0, 0.0, 1.0, 9.0, 1),
        rect(0.0, 0.0, 5.0, 1.0, 1),
        rect(0.0, 0.0, 5.0, 2.0, 1),
        rect(0.0, 4.0, 1.0, 1.0, 1),
        rect(3.0, -4.0, 1.0, 1.0, 1),
        rect(-3.0, -4.0, 0.0, 0.0, 2),
    ];
    let mut rects: Vec<PdfRect> = sorted.iter().rev().cloned().collect();
    dedup_rects(&mut rects);
    assert_eq!(rects, sorted);
}
